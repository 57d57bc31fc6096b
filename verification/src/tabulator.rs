//! The planner: how many columns a listing gets, how wide each one is, and
//! the grid of cell texts that comes of it.

use num_iter::range_step;
use vstd::prelude::*;
use crate::formatter::{Entry, EntryConfig, EntryConfigView, EntryView, Formatter};

verus! {

/// In which direction the entries fill the grid.
#[derive(Hash, Debug, PartialEq, Eq, Clone, Copy, Structural)]
pub enum EntryOrder {
    /// Row by row: the first row holds the first entries.
    Horizontal,
    /// Column by column: the first column holds the first entries.
    Vertical,
}

/// What a tabulator works with: the cell configuration, the width of the
/// terminal, the way cells are written and the direction of filling.
#[derive(Debug)]
pub struct Config<F: Formatter> {
    pub entry: EntryConfig,
    pub max_width: usize,
    pub formatter: F,
    pub entry_order: EntryOrder,
}

/// The number of rows that `len` entries take in `n_cols` columns: the
/// quotient, rounded up.
pub open spec fn row_count(len: int, n_cols: int) -> int {
    if len <= 0 || n_cols <= 0 {
        0
    } else {
        (len + n_cols - 1) / n_cols
    }
}

/// The row that entry `i` goes to.
pub open spec fn row_of(order: EntryOrder, n_rows: int, n_cols: int, i: int) -> int {
    match order {
        EntryOrder::Horizontal => i / n_cols,
        EntryOrder::Vertical => i % n_rows,
    }
}

/// How many of the first `i` entries go to row `r`.
pub open spec fn filled(order: EntryOrder, n_rows: int, n_cols: int, i: int, r: int) -> int {
    match order {
        EntryOrder::Horizontal => if i <= r * n_cols {
            0
        } else if i - r * n_cols >= n_cols {
            n_cols
        } else {
            i - r * n_cols
        },
        EntryOrder::Vertical => (i - r + n_rows - 1) / n_rows,
    }
}

/// Which entry stands at place `c` of row `r`.
pub open spec fn cell_index(order: EntryOrder, n_rows: int, n_cols: int, r: int, c: int) -> int {
    match order {
        EntryOrder::Horizontal => r * n_cols + c,
        EntryOrder::Vertical => c * n_rows + r,
    }
}

/// The number of entries in row `r` of the grid.
pub open spec fn row_len(order: EntryOrder, len: int, n_cols: int, r: int) -> int {
    filled(order, row_count(len, n_cols), n_cols, len, r)
}

/// The grid that `names` make in `n_cols` columns.
pub open spec fn rows_of<T>(order: EntryOrder, names: Seq<T>, n_cols: int) -> Seq<Seq<T>> {
    let len = names.len() as int;
    let n_rows = row_count(len, n_cols);
    Seq::new(
        n_rows as nat,
        |r: int|
            Seq::new(
                row_len(order, len, n_cols, r) as nat,
                |c: int| names[cell_index(order, n_rows, n_cols, r, c)],
            ),
    )
}

/// The rows of a grid, each as a sequence.
pub open spec fn unfold<T>(rows: Seq<Vec<T>>) -> Seq<Seq<T>> {
    Seq::new(rows.len(), |r: int| rows[r]@)
}

/// Entry `i` of `len` has a row among the `row_count` rows.
pub proof fn lemma_row_in_range(order: EntryOrder, len: int, n_cols: int, i: int)
    requires
        n_cols > 0,
        0 <= i < len,
    ensures
        0 <= row_of(order, row_count(len, n_cols), n_cols, i) < row_count(len, n_cols),
{
    let n_rows = row_count(len, n_cols);
    assert(n_rows >= 1 && n_rows * n_cols >= len && 0 <= i / n_cols < n_rows) by (nonlinear_arith)
        requires
            n_cols > 0,
            0 <= i < len,
            n_rows == (len + n_cols - 1) / n_cols,
    ;
    assert(0 <= i % n_rows < n_rows) by (nonlinear_arith)
        requires
            n_rows >= 1,
    ;
}

/// Putting entry `i` into its row lengthens that row by one, at the place
/// where `cell_index` expects the entry, and leaves the other rows alone.
pub proof fn lemma_fill_step(order: EntryOrder, n_rows: int, n_cols: int, i: int)
    requires
        n_cols > 0,
        n_rows > 0,
        0 <= i,
    ensures
        ({
            let pos = row_of(order, n_rows, n_cols, i);
            let at = filled(order, n_rows, n_cols, i, pos);
            &&& 0 <= at
            &&& cell_index(order, n_rows, n_cols, pos, at) == i
            &&& filled(order, n_rows, n_cols, i + 1, pos) == at + 1
            &&& forall|r: int|
                0 <= r < n_rows && r != pos ==> filled(order, n_rows, n_cols, i + 1, r) == filled(
                    order,
                    n_rows,
                    n_cols,
                    i,
                    r,
                )
        }),
{
    match order {
        EntryOrder::Horizontal => {
            let q = i / n_cols;
            let m = i % n_cols;
            assert(i == q * n_cols + m && 0 <= m < n_cols && 0 <= q) by (nonlinear_arith)
                requires
                    n_cols > 0,
                    0 <= i,
                    q == i / n_cols,
                    m == i % n_cols,
            ;
            assert forall|r: int| 0 <= r < n_rows && r != q implies filled(
                order,
                n_rows,
                n_cols,
                i + 1,
                r,
            ) == filled(order, n_rows, n_cols, i, r) by {
                if r < q {
                    assert(r * n_cols + n_cols <= q * n_cols) by (nonlinear_arith)
                        requires
                            r < q,
                            n_cols > 0,
                    ;
                } else {
                    assert(r * n_cols >= q * n_cols + n_cols) by (nonlinear_arith)
                        requires
                            r > q,
                            n_cols > 0,
                    ;
                }
            }
        },
        EntryOrder::Vertical => {
            let q = i / n_rows;
            let m = i % n_rows;
            assert(i == q * n_rows + m && 0 <= m < n_rows && 0 <= q) by (nonlinear_arith)
                requires
                    n_rows > 0,
                    0 <= i,
                    q == i / n_rows,
                    m == i % n_rows,
            ;
            assert(q * n_rows + n_rows == (q + 1) * n_rows) by (nonlinear_arith);
            lemma_quotient(i - m + n_rows - 1, n_rows, q, n_rows - 1);
            lemma_quotient(i + 1 - m + n_rows - 1, n_rows, q + 1, 0);
            assert forall|r: int| 0 <= r < n_rows && r != m implies filled(
                order,
                n_rows,
                n_cols,
                i + 1,
                r,
            ) == filled(order, n_rows, n_cols, i, r) by {
                if r > m {
                    lemma_quotient(i - r + n_rows - 1, n_rows, q, m - r + n_rows - 1);
                    lemma_quotient(i + 1 - r + n_rows - 1, n_rows, q, m - r + n_rows);
                } else {
                    lemma_quotient(i - r + n_rows - 1, n_rows, q + 1, m - r - 1);
                    lemma_quotient(i + 1 - r + n_rows - 1, n_rows, q + 1, m - r);
                }
            }
        },
    }
}

/// A number of the form `q * d + r` with `0 <= r < d` has quotient `q`.
pub proof fn lemma_quotient(x: int, d: int, q: int, r: int)
    requires
        d > 0,
        0 <= r < d,
        x == q * d + r,
    ensures
        x / d == q,
        x % d == r,
{
    vstd::arithmetic::div_mod::lemma_fundamental_div_mod_converse(x, d, q, r);
}

/// Every place of the grid holds an entry of the list, the place is in the
/// row that [`row_of`] gives that entry, and no row is longer than the
/// number of columns.
pub proof fn lemma_cell_in_range(order: EntryOrder, len: int, n_cols: int, r: int, c: int)
    requires
        n_cols > 0,
        0 <= r < row_count(len, n_cols),
        0 <= c < row_len(order, len, n_cols, r),
    ensures
        0 <= cell_index(order, row_count(len, n_cols), n_cols, r, c) < len,
        row_of(
            order,
            row_count(len, n_cols),
            n_cols,
            cell_index(order, row_count(len, n_cols), n_cols, r, c),
        ) == r,
        row_len(order, len, n_cols, r) <= n_cols,
{
    let n_rows = row_count(len, n_cols);
    assert(n_rows * n_cols >= len) by (nonlinear_arith)
        requires
            n_cols > 0,
            len > 0,
            n_rows == (len + n_cols - 1) / n_cols,
    ;
    match order {
        EntryOrder::Horizontal => {
            assert(r * n_cols >= 0) by (nonlinear_arith)
                requires
                    r >= 0,
                    n_cols > 0,
            ;
            lemma_quotient(r * n_cols + c, n_cols, r, c);
        },
        EntryOrder::Vertical => {
            let top = len - r + n_rows - 1;
            let l = top / n_rows;
            assert(l * n_rows <= top && c * n_rows + n_rows <= l * n_rows && c * n_rows >= 0)
                by (nonlinear_arith)
                requires
                    n_rows > 0,
                    l == top / n_rows,
                    0 <= c < l,
            ;
            lemma_quotient(c * n_rows + r, n_rows, c, r);
            assert(l <= n_cols) by (nonlinear_arith)
                requires
                    n_rows > 0,
                    l == top / n_rows,
                    top <= n_rows * n_cols + n_rows - 1,
            ;
        },
    }
}

/// A row holds no fewer of the first `j` entries than of the first `i`,
/// where `i` is not beyond `j`.
proof fn lemma_filled_grows(order: EntryOrder, n_rows: int, n_cols: int, i: int, j: int, r: int)
    requires
        n_cols > 0,
        0 <= r < n_rows,
        0 <= i <= j,
    ensures
        filled(order, n_rows, n_cols, i, r) <= filled(order, n_rows, n_cols, j, r),
    decreases j - i,
{
    if i < j {
        lemma_fill_step(order, n_rows, n_cols, j - 1);
        lemma_filled_grows(order, n_rows, n_cols, i, j - 1, r);
    }
}

/// Every entry of the list stands in the grid: entry `i` in the row that
/// [`row_of`] gives it, behind the earlier entries of that row. In
/// horizontal order that is row `i / n_cols`, in vertical order row
/// `i % rows`.
pub proof fn lemma_entry_has_its_place<T>(order: EntryOrder, names: Seq<T>, n_cols: int, i: int)
    requires
        n_cols > 0,
        0 <= i < names.len(),
    ensures
        ({
            let n_rows = row_count(names.len() as int, n_cols);
            let r = row_of(order, n_rows, n_cols, i);
            let c = filled(order, n_rows, n_cols, i, r);
            let grid = rows_of(order, names, n_cols);
            &&& grid.len() == n_rows
            &&& 0 <= r < n_rows
            &&& 0 <= c < grid[r].len()
            &&& grid[r][c] == names[i]
        }),
{
    let len = names.len() as int;
    let n_rows = row_count(len, n_cols);
    let r = row_of(order, n_rows, n_cols, i);
    lemma_row_in_range(order, len, n_cols, i);
    lemma_fill_step(order, n_rows, n_cols, i);
    lemma_filled_grows(order, n_rows, n_cols, i + 1, len, r);
}

/// Before any entry is placed, every row is empty.
proof fn lemma_filled_none(order: EntryOrder, n_rows: int, n_cols: int, r: int)
    requires
        n_cols > 0,
        0 <= r < n_rows,
    ensures
        filled(order, n_rows, n_cols, 0, r) == 0,
{
    assert(r * n_cols >= 0) by (nonlinear_arith)
        requires
            r >= 0,
            n_cols > 0,
    ;
    lemma_quotient(0 - r + n_rows - 1, n_rows, 0, n_rows - 1 - r);
}

/// Rounding the quotient up, without the sum that could overflow.
pub proof fn lemma_row_count(len: int, n_cols: int)
    requires
        len > 0,
        n_cols > 0,
    ensures
        row_count(len, n_cols) == (len - 1) / n_cols + 1,
{
    let q = (len - 1) / n_cols;
    let m = (len - 1) % n_cols;
    assert(len - 1 == q * n_cols + m && 0 <= m < n_cols) by (nonlinear_arith)
        requires
            n_cols > 0,
            q == (len - 1) / n_cols,
            m == (len - 1) % n_cols,
    ;
    assert(len + n_cols - 1 == (q + 1) * n_cols + m) by (nonlinear_arith)
        requires
            len - 1 == q * n_cols + m,
    ;
    lemma_quotient(len + n_cols - 1, n_cols, q + 1, m);
}

/// Place `c` of row `k` holds the entry of the list that belongs there.
spec fn placed<T>(
    order: EntryOrder,
    rows: Seq<Vec<T>>,
    names: Seq<T>,
    n_cols: int,
    k: int,
    c: int,
) -> bool {
    let at = cell_index(order, row_count(names.len() as int, n_cols), n_cols, k, c);
    0 <= at < names.len() && rows[k]@[c] == names[at]
}

/// Lays a list out as a grid of `n_cols` columns.
///
/// There are as many rows as the entries need. In horizontal order entry
/// `i` goes to row `i / n_cols`, in vertical order to row `i % rows`; within
/// a row the entries keep their order.
pub fn break_lines_with<T: Copy>(order: EntryOrder, names: &Vec<T>, n_cols: usize) -> (rows: Vec<
    Vec<T>,
>)
    requires
        n_cols > 0,
    ensures
        unfold(rows@) == rows_of(order, names@, n_cols as int),
{
    let len: usize = names.len();
    let n_rows: usize = if len == 0 {
        0
    } else {
        (len - 1) / n_cols + 1
    };
    proof {
        if len > 0 {
            lemma_row_count(len as int, n_cols as int);
        }
    }
    let mut rows: Vec<Vec<T>> = Vec::new();
    let mut r: usize = 0;
    while r < n_rows
        invariant
            r <= n_rows,
            rows@.len() == r,
            forall|k: int| 0 <= k < r ==> (#[trigger] rows@[k])@.len() == 0,
        decreases n_rows - r,
    {
        rows.push(Vec::new());
        r += 1;
    }
    proof {
        assert forall|k: int| 0 <= k < n_rows implies filled(
            order,
            n_rows as int,
            n_cols as int,
            0,
            k,
        ) == 0 by {
            lemma_filled_none(order, n_rows as int, n_cols as int, k);
        }
    }
    let mut i: usize = 0;
    while i < len
        invariant
            i <= len,
            len == names@.len(),
            n_cols > 0,
            n_rows == row_count(len as int, n_cols as int),
            rows@.len() == n_rows,
            forall|k: int|
                0 <= k < n_rows ==> (#[trigger] rows@[k])@.len() == filled(
                    order,
                    n_rows as int,
                    n_cols as int,
                    i as int,
                    k,
                ),
            forall|k: int, c: int|
                0 <= k < n_rows && 0 <= c < rows@[k]@.len() ==> #[trigger] placed(
                    order,
                    rows@,
                    names@,
                    n_cols as int,
                    k,
                    c,
                ),
        decreases len - i,
    {
        proof {
            lemma_row_in_range(order, len as int, n_cols as int, i as int);
            lemma_fill_step(order, n_rows as int, n_cols as int, i as int);
        }
        let pos: usize = match order {
            EntryOrder::Horizontal => i / n_cols,
            EntryOrder::Vertical => i % n_rows,
        };
        let ghost before = rows@;
        rows[pos].push(names[i]);
        assert(forall|k: int| 0 <= k < n_rows && k != pos ==> rows@[k] == before[k]);
        assert(rows@[pos as int]@ == before[pos as int]@.push(names@[i as int]));
        assert forall|k: int, c: int|
            0 <= k < n_rows && 0 <= c < rows@[k]@.len() implies #[trigger] placed(
            order,
            rows@,
            names@,
            n_cols as int,
            k,
            c,
        ) by {
            if k != pos || c < before[k]@.len() {
                assert(placed(order, before, names@, n_cols as int, k, c));
            }
        }
        i += 1;
    }
    proof {
        let want = rows_of(order, names@, n_cols as int);
        assert(unfold(rows@).len() == want.len());
        assert forall|k: int| 0 <= k < n_rows implies unfold(rows@)[k] =~= want[k] by {
            assert forall|c: int| 0 <= c < rows@[k]@.len() implies unfold(rows@)[k][c]
                == want[k][c] by {
                assert(placed(order, rows@, names@, n_cols as int, k, c));
            }
        }
        assert(unfold(rows@) =~= want);
    }
    rows
}

/// The sum of the column widths.
pub open spec fn total_width(widths: Seq<usize>) -> int
    decreases widths.len(),
{
    if widths.len() == 0 {
        0
    } else {
        total_width(widths.drop_last()) + widths.last()
    }
}

/// The widths of the first columns sum to no more than all of them do.
pub proof fn lemma_total_width_grows(widths: Seq<usize>, k: int)
    requires
        0 <= k <= widths.len(),
    ensures
        0 <= total_width(widths.take(k)) <= total_width(widths),
        k < widths.len() ==> total_width(widths.take(k + 1)) == total_width(widths.take(k))
            + widths[k],
    decreases widths.len() - k,
{
    if k < widths.len() {
        assert(widths.take(k + 1).drop_last() =~= widths.take(k));
        lemma_total_width_grows(widths, k + 1);
        lemma_total_width_nonnegative(widths.take(k));
    } else {
        assert(widths.take(k) =~= widths);
        lemma_total_width_nonnegative(widths);
    }
}

proof fn lemma_total_width_nonnegative(widths: Seq<usize>)
    ensures
        total_width(widths) >= 0,
    decreases widths.len(),
{
    if widths.len() > 0 {
        lemma_total_width_nonnegative(widths.drop_last());
    }
}

/// Whether columns of these widths fit a terminal of `max_width`: they do
/// where their sum is strictly less. Columns that fill the terminal exactly
/// do not fit.
pub fn is_valid(out: &Vec<usize>, max_width: usize) -> (fits: bool)
    ensures
        fits == (total_width(out@) < max_width),
{
    let mut width: usize = 0;
    let mut i: usize = 0;
    if max_width == 0 {
        proof {
            lemma_total_width_nonnegative(out@);
        }
        return false;
    }
    assert(out@.take(0) =~= Seq::<usize>::empty());
    while i < out.len()
        invariant
            i <= out.len(),
            width == total_width(out@.take(i as int)),
            width < max_width,
        decreases out.len() - i,
    {
        proof {
            lemma_total_width_grows(out@, i as int);
            lemma_total_width_grows(out@, i + 1);
        }
        if out[i] >= max_width - width {
            return false;
        }
        width += out[i];
        i += 1;
    }
    assert(out@.take(i as int) =~= out@);
    true
}

/// The width of column `c`: the widest entry that any row has there, and
/// nothing where no row is that long.
pub open spec fn column_width(rows: Seq<Seq<usize>>, c: int) -> usize
    decreases rows.len(),
{
    if rows.len() == 0 {
        0
    } else {
        let above = column_width(rows.drop_last(), c);
        let row = rows.last();
        if 0 <= c < row.len() && row[c] > above {
            row[c]
        } else {
            above
        }
    }
}

/// The number of columns of a grid: the length of its longest row.
pub open spec fn column_count(rows: Seq<Seq<usize>>) -> nat
    decreases rows.len(),
{
    if rows.len() == 0 {
        0
    } else {
        let above = column_count(rows.drop_last());
        if rows.last().len() > above {
            rows.last().len()
        } else {
            above
        }
    }
}

/// The column widths that a grid of entry widths asks for.
pub open spec fn column_setup_of(rows: Seq<Seq<usize>>) -> Seq<usize> {
    Seq::new(column_count(rows), |c: int| column_width(rows, c))
}

/// A column is as wide as each of its entries, and exactly as wide as one
/// of them; the grid has as many columns as its longest row has entries.
pub proof fn lemma_column_width_is_max(rows: Seq<Seq<usize>>, c: int)
    requires
        0 <= c,
    ensures
        forall|r: int|
            0 <= r < rows.len() && c < rows[r].len() ==> (#[trigger] rows[r])[c] <= column_width(
                rows,
                c,
            ),
        c < column_count(rows) ==> exists|r: int|
            0 <= r < rows.len() && c < rows[r].len() && (#[trigger] rows[r])[c] == column_width(
                rows,
                c,
            ),
        c >= column_count(rows) ==> column_width(rows, c) == 0,
        forall|r: int| 0 <= r < rows.len() ==> (#[trigger] rows[r]).len() <= column_count(rows),
    decreases rows.len(),
{
    if rows.len() > 0 {
        let front = rows.drop_last();
        lemma_column_width_is_max(front, c);
        assert forall|r: int| 0 <= r < front.len() implies front[r] == rows[r] by {}
        assert forall|r: int| 0 <= r < rows.len() && c < rows[r].len() implies (
        #[trigger] rows[r])[c] <= column_width(rows, c) by {
            if r < front.len() {
                assert(front[r][c] <= column_width(front, c));
            }
        }
        assert forall|r: int| 0 <= r < rows.len() implies (#[trigger] rows[r]).len()
            <= column_count(rows) by {
            if r < front.len() {
                assert(front[r].len() <= column_count(front));
            }
        }
        if c < column_count(rows) {
            let row = rows.last();
            if c < row.len() && row[c] > column_width(front, c) {
                assert(rows[rows.len() - 1][c] == column_width(rows, c));
            } else if c < column_count(front) {
                let r = choose|r: int|
                    0 <= r < front.len() && c < front[r].len() && (#[trigger] front[r])[c]
                        == column_width(front, c);
                assert(rows[r][c] == column_width(rows, c));
            } else {
                assert(rows[rows.len() - 1][c] == column_width(rows, c));
            }
        }
    }
}

/// A grid of which no row is longer than `most` has no more columns than
/// that.
proof fn lemma_column_count_bound(rows: Seq<Seq<usize>>, most: nat)
    requires
        forall|r: int| 0 <= r < rows.len() ==> (#[trigger] rows[r]).len() <= most,
    ensures
        column_count(rows) <= most,
    decreases rows.len(),
{
    if rows.len() > 0 {
        let front = rows.drop_last();
        assert forall|r: int| 0 <= r < front.len() implies (#[trigger] front[r]).len() <= most by {
            assert(front[r] == rows[r]);
        }
        lemma_column_count_bound(front, most);
        assert(rows.last() == rows[rows.len() - 1]);
    }
}

/// The quotient rounded up is the least number of parts of size `part`
/// that hold `whole`.
pub proof fn lemma_rounded_up(whole: int, part: int)
    requires
        whole > 0,
        part > 0,
    ensures
        row_count(whole, part) > 0,
        row_count(whole, part) * part >= whole,
        (row_count(whole, part) - 1) * part < whole,
{
    lemma_row_count(whole, part);
    let q = (whole - 1) / part;
    let m = (whole - 1) % part;
    assert(whole - 1 == q * part + m && 0 <= m < part && 0 <= q) by (nonlinear_arith)
        requires
            whole > 0,
            part > 0,
            q == (whole - 1) / part,
            m == (whole - 1) % part,
    ;
    assert((q + 1) * part == q * part + part) by (nonlinear_arith);
}

/// The columns that a layout uses lay the list out as the columns that
/// were asked for do.
///
/// Entries laid out in `n_cols` columns may leave the last of them empty.
/// The column widths are as many as the columns in use; laying the list
/// out in that many columns gives the same rows again.
pub proof fn lemma_setup_keeps_layout<T>(
    order: EntryOrder,
    names: Seq<T>,
    widths: Seq<usize>,
    n_cols: int,
)
    requires
        n_cols > 0,
        widths.len() == names.len(),
    ensures
        setup_for(order, widths, n_cols).len() <= n_cols,
        names.len() > 0 ==> setup_for(order, widths, n_cols).len() > 0,
        rows_of(order, names, setup_for(order, widths, n_cols).len() as int) == rows_of(
            order,
            names,
            n_cols,
        ),
{
    let len = names.len() as int;
    let grid = rows_of(order, widths, n_cols);
    let used = column_count(grid) as int;
    if len == 0 {
        assert(grid =~= Seq::<Seq<usize>>::empty());
        assert(rows_of(order, names, used) =~= rows_of(order, names, n_cols));
    } else {
        let n_rows = row_count(len, n_cols);
        lemma_rounded_up(len, n_cols);
        let first = row_len(order, len, n_cols, 0);
        // the first row is the longest
        assert forall|r: int| 0 <= r < grid.len() implies (#[trigger] grid[r]).len() <= first by {
            lemma_filled_none(order, n_rows, n_cols, r);
            lemma_filled_grows(order, n_rows, n_cols, 0, len, r);
            match order {
                EntryOrder::Horizontal => {
                    assert(r * n_cols >= 0) by (nonlinear_arith)
                        requires
                            r >= 0,
                            n_cols > 0,
                    ;
                },
                EntryOrder::Vertical => {
                    assert((len - r + n_rows - 1) / n_rows <= (len + n_rows - 1) / n_rows)
                        by (nonlinear_arith)
                        requires
                            r >= 0,
                            n_rows > 0,
                    ;
                },
            }
        }
        lemma_filled_none(order, n_rows, n_cols, 0);
        lemma_filled_grows(order, n_rows, n_cols, 0, len, 0);
        lemma_column_count_bound(grid, first as nat);
        lemma_column_width_is_max(grid, 0);
        assert(grid[0].len() == first);
        assert(used == first);
        match order {
            EntryOrder::Horizontal => {
                if len < n_cols {
                    assert(first == len);
                    lemma_quotient(len + n_cols - 1, n_cols, 1, len - 1);
                    lemma_quotient(len + len - 1, len, 1, len - 1);
                    assert(row_count(len, used) == 1 && n_rows == 1);
                    let a = rows_of(order, names, used);
                    let b = rows_of(order, names, n_cols);
                    assert(a.len() == b.len());
                    assert(a[0] =~= b[0]);
                    assert(a =~= b);
                } else {
                    assert(first == n_cols);
                }
            },
            EntryOrder::Vertical => {
                assert(first == row_count(len, n_rows));
                lemma_rounded_up(len, n_rows);
                lemma_rounded_up(len, first);
                let again = row_count(len, first);
                assert(first <= n_cols) by (nonlinear_arith)
                    requires
                        n_rows > 0,
                        n_rows * n_cols >= len,
                        (first - 1) * n_rows < len,
                ;
                assert(again <= n_rows) by (nonlinear_arith)
                    requires
                        first > 0,
                        first * n_rows >= len,
                        (again - 1) * first < len,
                ;
                assert(again >= n_rows) by (nonlinear_arith)
                    requires
                        0 < first <= n_cols,
                        again * first >= len,
                        (n_rows - 1) * n_cols < len,
                        again > 0,
                ;
                assert(again == n_rows);
                let a = rows_of(order, names, used);
                let b = rows_of(order, names, n_cols);
                assert(a.len() == b.len());
                assert forall|r: int| 0 <= r < a.len() implies a[r] =~= b[r] by {
                    assert(row_len(order, len, used, r) == row_len(order, len, n_cols, r));
                }
                assert(a =~= b);
            },
        }
    }
}

/// The column widths for a grid of entry widths: per column, the widest
/// entry of any row that reaches that far. No rows, no columns.
pub fn column_setup(out: Vec<Vec<usize>>) -> (col_widths: Vec<usize>)
    ensures
        col_widths@ == column_setup_of(unfold(out@)),
{
    let ghost grid = unfold(out@);
    let mut col_widths: Vec<usize> = Vec::new();
    let mut y: usize = 0;
    assert(grid.take(0) =~= Seq::<Seq<usize>>::empty());
    assert(col_widths@ =~= column_setup_of(grid.take(0)));
    while y < out.len()
        invariant
            y <= out.len(),
            grid == unfold(out@),
            col_widths@ == column_setup_of(grid.take(y as int)),
        decreases out.len() - y,
    {
        let ghost above = grid.take(y as int);
        let ghost upto = grid.take(y + 1);
        assert(upto.drop_last() =~= above);
        assert(upto.last() == out@[y as int]@);
        let mut x: usize = 0;
        while x < out[y].len()
            invariant
                y < out.len(),
                x <= out@[y as int]@.len(),
                upto.len() > 0,
                upto.drop_last() == above,
                upto.last() == out@[y as int]@,
                col_widths@.len() == (if column_count(above) > x {
                    column_count(above)
                } else {
                    x as nat
                }),
                forall|c: int| 0 <= c < x ==> col_widths@[c] == column_width(upto, c),
                forall|c: int|
                    x <= c < col_widths@.len() ==> col_widths@[c] == column_width(above, c),
            decreases out@[y as int]@.len() - x,
        {
            let s: usize = out[y][x];
            proof {
                lemma_column_width_is_max(above, x as int);
                assert(column_width(upto, x as int) == (if s > column_width(above, x as int) {
                    s
                } else {
                    column_width(above, x as int)
                }));
            }
            if x < col_widths.len() {
                if s > col_widths[x] {
                    col_widths[x] = s;
                }
            } else {
                col_widths.push(s);
            }
            x += 1;
        }
        proof {
            assert(col_widths@.len() == column_count(upto));
            assert forall|c: int| 0 <= c < col_widths@.len() implies col_widths@[c]
                == column_width(upto, c) by {
                if c >= x {
                    assert(col_widths@[c] == column_width(above, c));
                }
            }
            assert(col_widths@ =~= column_setup_of(upto));
        }
        y += 1;
    }
    assert(grid.take(y as int) =~= grid);
    col_widths
}

/// The entries of a list as plain values.
pub open spec fn views(names: Seq<Entry>) -> Seq<EntryView> {
    Seq::new(names.len(), |i: int| names[i]@)
}

/// The width that the formatter predicts for each entry.
pub open spec fn predicted<F: Formatter>(formatter: &F, names: Seq<EntryView>) -> Seq<usize> {
    Seq::new(names.len(), |i: int| formatter.spec_predict(names[i]) as usize)
}

/// The column widths that the entries ask for when they are laid out in
/// `n_cols` columns: per column, the widest prediction.
pub open spec fn predicted_setup<F: Formatter>(
    formatter: &F,
    order: EntryOrder,
    names: Seq<EntryView>,
    n_cols: int,
) -> Seq<usize> {
    setup_for(order, predicted(formatter, names), n_cols)
}

/// The column widths for entries of the given widths laid out in `n_cols`
/// columns.
pub open spec fn setup_for(order: EntryOrder, widths: Seq<usize>, n_cols: int) -> Seq<usize> {
    column_setup_of(rows_of(order, widths, n_cols))
}

/// Whether entries of the given widths fit a terminal of `max_width` when
/// they are laid out in `n_cols` columns.
pub open spec fn fits_in(max_width: usize, order: EntryOrder, widths: Seq<usize>, n_cols: int) -> bool {
    total_width(setup_for(order, widths, n_cols)) < max_width
}

/// Whether the entries fit the terminal when they are laid out in `n_cols`
/// columns.
pub open spec fn fits<F: Formatter>(config: &Config<F>, names: Seq<EntryView>, n_cols: int) -> bool {
    fits_in(
        config.max_width,
        config.entry_order,
        predicted(&config.formatter, names),
        n_cols,
    )
}

/// The widest of some widths; nothing for none.
pub open spec fn widest(widths: Seq<usize>) -> usize
    decreases widths.len(),
{
    if widths.len() == 0 {
        0
    } else {
        let before = widest(widths.drop_last());
        if widths.last() > before {
            widths.last()
        } else {
            before
        }
    }
}

/// The predicted width of every entry, in the order of the list.
fn predictions<F: Formatter>(config: &Config<F>, names: &Vec<Entry>) -> (widths: Vec<usize>)
    ensures
        widths@ == predicted(&config.formatter, views(names@)),
{
    let mut widths: Vec<usize> = Vec::new();
    let mut i: usize = 0;
    while i < names.len()
        invariant
            i <= names.len(),
            widths@.len() == i,
            forall|k: int|
                0 <= k < i ==> widths@[k] == config.formatter.spec_predict(names@[k]@) as usize,
        decreases names.len() - i,
    {
        widths.push(config.formatter.predict(&names[i]));
        i += 1;
    }
    assert(widths@ =~= predicted(&config.formatter, views(names@)));
    widths
}

/// The column widths for the entries laid out in `n_cols` columns.
pub fn predict_column_setup<F: Formatter>(config: &Config<F>, names: &Vec<Entry>, n_cols: usize) -> (setup:
    Vec<usize>)
    requires
        n_cols > 0,
    ensures
        setup@ == predicted_setup(
            &config.formatter,
            config.entry_order,
            views(names@),
            n_cols as int,
        ),
{
    let widths = predictions(config, names);
    column_setup(break_lines_with(config.entry_order, &widths, n_cols))
}

/// The column widths for `n_cols` columns, if columns of those widths fit
/// the terminal.
pub fn is_valid_as_rows<F: Formatter>(config: &Config<F>, names: &Vec<Entry>, n_cols: usize) -> (found:
    Option<Vec<usize>>)
    requires
        n_cols > 0,
    ensures
        found is Some <==> fits(config, views(names@), n_cols as int),
        found matches Some(setup) ==> setup@ == predicted_setup(
            &config.formatter,
            config.entry_order,
            views(names@),
            n_cols as int,
        ),
{
    let setup = predict_column_setup(config, names, n_cols);
    if is_valid(&setup, config.max_width) {
        Some(setup)
    } else {
        None
    }
}

/// The widest predicted width among the entries; 0 for no entries.
pub fn max_width<F: Formatter>(config: &Config<F>, names: &Vec<Entry>) -> (width: usize)
    ensures
        width == widest(predicted(&config.formatter, views(names@))),
{
    let ghost all = predicted(&config.formatter, views(names@));
    let mut width: usize = 0;
    let mut i: usize = 0;
    assert(all.take(0) =~= Seq::<usize>::empty());
    while i < names.len()
        invariant
            i <= names.len(),
            all == predicted(&config.formatter, views(names@)),
            width == widest(all.take(i as int)),
        decreases names.len() - i,
    {
        let cwidth: usize = config.formatter.predict(&names[i]);
        assert(all.take(i + 1).drop_last() =~= all.take(i as int));
        assert(all.take(i + 1).last() == cwidth);
        if cwidth > width {
            width = cwidth;
        }
        i += 1;
    }
    assert(all.take(i as int) =~= all);
    width
}

/// The text of every cell when the entries are laid out in as many columns
/// as there are widths, each cell written for the width of its column.
pub open spec fn grid_of<F: Formatter>(
    formatter: &F,
    entry: EntryConfigView,
    order: EntryOrder,
    names: Seq<EntryView>,
    widths: Seq<usize>,
) -> Seq<Seq<Seq<char>>> {
    let rows = rows_of(order, names, widths.len() as int);
    Seq::new(
        rows.len(),
        |r: int|
            Seq::new(
                rows[r].len(),
                |c: int| formatter.spec_format(entry.with_width(widths[c]), rows[r][c]),
            ),
    )
}

/// A grid of cells as plain text.
pub open spec fn grid_text(out: Seq<Vec<String>>) -> Seq<Seq<Seq<char>>> {
    Seq::new(out.len(), |r: int| Seq::new(out[r]@.len(), |c: int| out[r]@[c]@))
}

/// The numbers from 0 up to, not including, `len`.
fn indices(len: usize) -> (list: Vec<usize>)
    ensures
        list@ == Seq::new(len as nat, |i: int| i as usize),
{
    let mut list: Vec<usize> = Vec::new();
    let mut i: usize = 0;
    while i < len
        invariant
            i <= len,
            list@ == Seq::new(i as nat, |k: int| k as usize),
        decreases len - i,
    {
        list.push(i);
        assert(list@ =~= Seq::new((i + 1) as nat, |k: int| k as usize));
        i += 1;
    }
    list
}

/// One cell configuration per column, each with the width of its column.
fn column_configs(entry: &EntryConfig, col_widths: &Vec<usize>) -> (configs: Vec<EntryConfig>)
    ensures
        configs@.len() == col_widths@.len(),
        forall|c: int|
            0 <= c < configs@.len() ==> (#[trigger] configs@[c])@ == entry@.with_width(
                col_widths@[c],
            ),
{
    let mut configs: Vec<EntryConfig> = Vec::new();
    let mut c: usize = 0;
    while c < col_widths.len()
        invariant
            c <= col_widths.len(),
            configs@.len() == c,
            forall|k: int|
                0 <= k < c ==> (#[trigger] configs@[k])@ == entry@.with_width(col_widths@[k]),
        decreases col_widths.len() - c,
    {
        configs.push(entry.with_width(col_widths[c]));
        c += 1;
    }
    configs
}

/// Writes the grid: the entries laid out in as many columns as there are
/// widths, each cell formatted for the width of its column.
///
/// No entries, or no columns, give the empty grid.
pub fn format_as_rows<F: Formatter>(config: &Config<F>, names: &Vec<Entry>, col_widths: Vec<usize>) -> (out:
    Vec<Vec<String>>)
    ensures
        grid_text(out@) == grid_of(
            &config.formatter,
            config.entry@,
            config.entry_order,
            views(names@),
            col_widths@,
        ),
{
    let n_cols: usize = col_widths.len();
    let len: usize = names.len();
    let ghost want = grid_of(
        &config.formatter,
        config.entry@,
        config.entry_order,
        views(names@),
        col_widths@,
    );
    let mut out: Vec<Vec<String>> = Vec::new();
    if len == 0 || n_cols == 0 {
        assert(grid_text(out@) =~= want);
        return out;
    }
    let numbers = indices(len);
    let rows = break_lines_with(config.entry_order, &numbers, n_cols);
    let entry_configs = column_configs(&config.entry, &col_widths);
    let ghost order = config.entry_order;
    let ghost layout = rows_of(order, numbers@, n_cols as int);
    let ghost n_rows = row_count(len as int, n_cols as int);
    assert(unfold(rows@) == layout);
    assert(rows@.len() == n_rows);
    let mut y: usize = 0;
    while y < rows.len()
        invariant
            y <= rows.len(),
            n_cols > 0,
            n_cols == col_widths@.len(),
            len == names@.len(),
            numbers@ == Seq::new(len as nat, |i: int| i as usize),
            order == config.entry_order,
            layout == rows_of(order, numbers@, n_cols as int),
            unfold(rows@) == layout,
            n_rows == row_count(len as int, n_cols as int),
            rows@.len() == n_rows,
            entry_configs@.len() == n_cols,
            forall|c: int|
                0 <= c < n_cols ==> (#[trigger] entry_configs@[c])@ == config.entry@.with_width(
                    col_widths@[c],
                ),
            want == grid_of(
                &config.formatter,
                config.entry@,
                config.entry_order,
                views(names@),
                col_widths@,
            ),
            out@.len() == y,
            forall|r: int| 0 <= r < y ==> grid_text(out@)[r] == want[r],
        decreases rows.len() - y,
    {
        let mut cells: Vec<String> = Vec::new();
        let mut x: usize = 0;
        assert(unfold(rows@)[y as int] == layout[y as int]);
        assert(rows@[y as int]@.len() == row_len(order, len as int, n_cols as int, y as int));
        while x < rows[y].len()
            invariant
                y < rows.len(),
                x <= rows@[y as int]@.len(),
                n_cols > 0,
                n_cols == col_widths@.len(),
                len == names@.len(),
                numbers@ == Seq::new(len as nat, |i: int| i as usize),
                order == config.entry_order,
                layout == rows_of(order, numbers@, n_cols as int),
                unfold(rows@) == layout,
                n_rows == row_count(len as int, n_cols as int),
                rows@.len() == n_rows,
                rows@[y as int]@.len() == row_len(order, len as int, n_cols as int, y as int),
                entry_configs@.len() == n_cols,
                forall|c: int|
                    0 <= c < n_cols ==> (#[trigger] entry_configs@[c])@
                        == config.entry@.with_width(col_widths@[c]),
                want == grid_of(
                    &config.formatter,
                    config.entry@,
                    config.entry_order,
                    views(names@),
                    col_widths@,
                ),
                cells@.len() == x,
                forall|c: int| 0 <= c < x ==> (#[trigger] cells@[c])@ == want[y as int][c],
            decreases rows@[y as int]@.len() - x,
        {
            proof {
                lemma_cell_in_range(order, len as int, n_cols as int, y as int, x as int);
                assert(unfold(rows@)[y as int][x as int] == layout[y as int][x as int]);
            }
            let at: usize = rows[y][x];
            let cell = config.formatter.format(&entry_configs[x], &names[at]);
            cells.push(cell);
            x += 1;
        }
        let ghost before = out@;
        out.push(cells);
        proof {
            assert forall|r: int| 0 <= r < y + 1 implies grid_text(out@)[r] == want[r] by {
                if r < y {
                    assert(grid_text(before)[r] == want[r]);
                    assert(grid_text(out@)[r] =~= grid_text(before)[r]);
                } else {
                    assert(grid_text(out@)[r] =~= want[r]);
                }
            }
        }
        y += 1;
    }
    assert(grid_text(out@) =~= want);
    out
}

/// What the search over a window of `len` answers starting at `lo` finds.
///
/// The window is halved at its middle: where the middle answer is true the
/// search goes on in the left part, the middle included; where it is false,
/// in the right part, the middle included. A window of one or two answers is
/// read from the left, and the first true answer is the result.
pub open spec fn bisect_window(flags: Seq<bool>, lo: int, len: int) -> Option<int>
    decreases len,
{
    if len <= 0 {
        None
    } else {
        let mid = len / 2;
        let lo2 = if flags[lo + mid] {
            lo
        } else {
            lo + mid
        };
        let len2 = if flags[lo + mid] {
            mid + 1
        } else {
            len - mid
        };
        if len2 < 3 {
            if flags[lo2] {
                Some(lo2)
            } else if len2 == 2 && flags[lo2 + 1] {
                Some(lo2 + 1)
            } else {
                None
            }
        } else {
            bisect_window(flags, lo2, len2)
        }
    }
}

/// What the search over all the answers finds.
pub open spec fn bisect(flags: Seq<bool>) -> Option<int> {
    bisect_window(flags, 0, flags.len() as int)
}

/// The first true answer at or after `from`.
pub open spec fn first_true_from(flags: Seq<bool>, from: int) -> Option<int>
    decreases flags.len() - from,
{
    if from >= flags.len() {
        None
    } else if flags[from] {
        Some(from)
    } else {
        first_true_from(flags, from + 1)
    }
}

/// The first true answer.
pub open spec fn first_true(flags: Seq<bool>) -> Option<int> {
    first_true_from(flags, 0)
}

/// Once an answer is true, all later ones are.
pub open spec fn rising(flags: Seq<bool>) -> bool {
    forall|i: int, j: int| 0 <= i <= j < flags.len() && flags[i] ==> flags[j]
}

/// `first_true_from` gives the least position of a true answer, and nothing
/// where there is none.
pub proof fn lemma_first_true_from(flags: Seq<bool>, from: int)
    requires
        0 <= from,
    ensures
        match first_true_from(flags, from) {
            Some(at) => from <= at < flags.len() && flags[at] && forall|k: int|
                from <= k < at ==> !flags[k],
            None => forall|k: int| from <= k < flags.len() ==> !flags[k],
        },
    decreases flags.len() - from,
{
    if from < flags.len() && !flags[from] {
        lemma_first_true_from(flags, from + 1);
    }
}

/// On rising answers the search over a window finds the first true answer,
/// provided that no answer before the window is true and that the window
/// reaches the end or ends on a true answer.
proof fn lemma_bisect_window_rising(flags: Seq<bool>, lo: int, len: int)
    requires
        rising(flags),
        0 <= lo,
        0 < len,
        lo + len <= flags.len(),
        forall|k: int| 0 <= k < lo ==> !flags[k],
        lo + len == flags.len() || flags[lo + len - 1],
    ensures
        bisect_window(flags, lo, len) == first_true(flags),
    decreases len,
{
    lemma_first_true_from(flags, 0);
    let mid = len / 2;
    let lo2 = if flags[lo + mid] {
        lo
    } else {
        lo + mid
    };
    let len2 = if flags[lo + mid] {
        mid + 1
    } else {
        len - mid
    };
    assert forall|k: int| 0 <= k < lo2 implies !flags[k] by {
        if k >= lo && flags[k] {
            assert(flags[lo + mid]);
        }
    }
    if len2 >= 3 {
        lemma_bisect_window_rising(flags, lo2, len2);
    } else {
        if !flags[lo2] && !(len2 == 2 && flags[lo2 + 1]) {
            assert forall|k: int| 0 <= k < flags.len() implies !flags[k] by {
                if k >= lo2 + len2 {
                    assert(flags[lo2 + len2 - 1]);
                }
            }
        }
    }
}

/// On rising answers the search finds the first true answer: the halving
/// and the walk from the left agree.
pub proof fn lemma_bisect_rising(flags: Seq<bool>)
    requires
        rising(flags),
    ensures
        bisect(flags) == first_true(flags),
{
    if flags.len() > 0 {
        lemma_bisect_window_rising(flags, 0, flags.len() as int);
    }
}

/// What the search finds is the position of a true answer.
pub proof fn lemma_bisect_finds_true(flags: Seq<bool>, lo: int, len: int)
    requires
        0 <= lo,
        lo + len <= flags.len(),
    ensures
        bisect_window(flags, lo, len) matches Some(at) ==> lo <= at < lo + len && flags[at],
    decreases len,
{
    if len > 0 {
        let mid = len / 2;
        let lo2 = if flags[lo + mid] {
            lo
        } else {
            lo + mid
        };
        let len2 = if flags[lo + mid] {
            mid + 1
        } else {
            len - mid
        };
        if len2 >= 3 {
            lemma_bisect_finds_true(flags, lo2, len2);
        }
    }
}

/// `flags` are the answers of `pred` on `range`: whatever a call of `pred`
/// on an item may return is the flag at the item's place.
pub open spec fn describes<T, F: Fn(&T) -> bool>(range: Seq<T>, pred: F, flags: Seq<bool>) -> bool {
    &&& flags.len() == range.len()
    &&& forall|i: int, b: bool|
        0 <= i < range.len() && call_ensures(pred, (&range[i],), b) ==> b == flags[i]
}

/// What was found, as a position among the answers.
pub open spec fn as_position(found: Option<usize>) -> Option<int> {
    match found {
        Some(at) => Some(at as int),
        None => None,
    }
}

/// Searches `range` for an item of which `pred` holds, by halving.
///
/// Where `pred` is false of the first items and true of all the others,
/// the result is the first item of which it is true. In any case the
/// result is what [`bisect`] finds in the answers of `pred`, and `pred` has
/// returned true of the item found. An empty range gives `None`; a window
/// of one or two items is read outright.
pub fn binsearch<T, F: Fn(&T) -> bool>(range: &Vec<T>, pred: F) -> (found: Option<usize>)
    requires
        forall|i: int| 0 <= i < range.len() ==> call_requires(pred, (&range[i],)),
    ensures
        found matches Some(at) ==> at < range.len() && call_ensures(
            pred,
            (&range[at as int],),
            true,
        ),
        forall|flags: Seq<bool>| #[trigger]
            describes(range@, pred, flags) ==> as_position(found) == bisect(flags),
{
    let mut lo: usize = 0;
    let mut len: usize = range.len();
    if len == 0 {
        return None;
    }
    loop
        invariant
            0 < len,
            lo + len <= range.len(),
            forall|i: int| 0 <= i < range.len() ==> call_requires(pred, (&range[i],)),
            forall|flags: Seq<bool>| #[trigger]
                describes(range@, pred, flags) ==> bisect_window(flags, lo as int, len as int)
                    == bisect(flags),
        decreases len,
    {
        let mid: usize = len / 2;
        let ghost lo1 = lo;
        let ghost len1 = len;
        let hit = pred(&range[lo + mid]);
        if hit {
            len = mid + 1;
        } else {
            lo += mid;
            len -= mid;
        }
        if len < 3 {
            let first = pred(&range[lo]);
            if first {
                assert forall|flags: Seq<bool>| #[trigger]
                    describes(range@, pred, flags) implies Some(lo as int) == bisect(flags) by {
                    assert(flags[lo1 + mid] == hit);
                    assert(flags[lo as int] == first);
                }
                return Some(lo);
            }
            if len == 2 {
                let second = pred(&range[lo + 1]);
                if second {
                    assert forall|flags: Seq<bool>| #[trigger]
                        describes(range@, pred, flags) implies Some(lo + 1) == bisect(flags) by {
                        assert(flags[lo1 + mid] == hit);
                        assert(flags[lo as int] == first);
                        assert(flags[lo + 1] == second);
                    }
                    return Some(lo + 1);
                }
                assert forall|flags: Seq<bool>| #[trigger]
                    describes(range@, pred, flags) implies bisect(flags) is None by {
                    assert(flags[lo1 + mid] == hit);
                    assert(flags[lo as int] == first);
                    assert(flags[lo + 1] == second);
                }
                return None;
            }
            assert forall|flags: Seq<bool>| #[trigger]
                describes(range@, pred, flags) implies bisect(flags) is None by {
                assert(flags[lo1 + mid] == hit);
                assert(flags[lo as int] == first);
            }
            return None;
        }
        assert forall|flags: Seq<bool>| #[trigger]
            describes(range@, pred, flags) implies bisect_window(flags, lo as int, len as int)
            == bisect(flags) by {
            assert(flags[lo1 + mid] == hit);
            assert(bisect_window(flags, lo1 as int, len1 as int) == bisect(flags));
        }
    }
}

/// The narrowest column that the search plans for: it sets the largest
/// number of columns that is tried.
pub const MIN_FORMAT_ENTRY_LENGTH: usize = 5;

/// The numbers from `start` down to, not including, `stop`.
pub open spec fn descending(start: int, stop: int) -> Seq<int> {
    Seq::new(
        if start > stop {
            (start - stop) as nat
        } else {
            0
        },
        |i: int| start - i,
    )
}

/// A list of machine integers as numbers.
pub open spec fn as_ints(range: Seq<i64>) -> Seq<int> {
    Seq::new(range.len(), |i: int| range[i] as int)
}

/// Collects `num_iter::range_step(start, stop, -1)`, which counts down from
/// `start` in steps of one and stops before `stop`; it yields nothing where
/// `start` is not above `stop`.
#[verifier::external_body]
pub(crate) fn range_down(start: i64, stop: i64) -> (range: Vec<i64>)
    ensures
        as_ints(range@) == descending(start as int, stop as int),
{
    range_step(start, stop, -1).collect()
}

/// The largest number of columns that is tried: as many columns of the
/// narrowest kind as the terminal holds.
pub open spec fn max_columns(max_width: usize) -> int {
    max_width as int / MIN_FORMAT_ENTRY_LENGTH as int
}

/// The smallest number of columns that is tried: as many columns as hold
/// the widest entry and a blank, and one at least.
pub open spec fn min_columns(max_width: usize, widest: usize) -> int {
    let whole = max_width as int / (widest as int + 1);
    if whole > 1 {
        whole
    } else {
        1
    }
}

/// The numbers of columns that the search tries, most columns first: from
/// [`max_columns`] down to [`min_columns`], both included. There is none
/// where the smallest number is above the largest.
pub open spec fn candidates(max_width: usize, widest: usize) -> Seq<int> {
    descending(max_columns(max_width), min_columns(max_width, widest) - 1)
}

/// For each candidate, whether entries of the given widths fit in that
/// many columns.
pub open spec fn column_flags(max_width: usize, order: EntryOrder, widths: Seq<usize>) -> Seq<bool> {
    let tried = candidates(max_width, widest(widths));
    Seq::new(tried.len(), |i: int| fits_in(max_width, order, widths, tried[i]))
}

/// The candidate at the position that a search found; one column where it
/// found none.
pub open spec fn chosen(tried: Seq<int>, found: Option<int>) -> int {
    match found {
        Some(at) => tried[at],
        None => 1,
    }
}

/// The grid for the entries laid out in `n_cols` columns, each as wide as
/// its widest predicted entry.
pub open spec fn layout<F: Formatter>(config: &Config<F>, names: Seq<EntryView>, n_cols: int) -> Seq<
    Seq<Seq<char>>,
> {
    grid_of(
        &config.formatter,
        config.entry@,
        config.entry_order,
        names,
        predicted_setup(&config.formatter, config.entry_order, names, n_cols),
    )
}

/// The candidates for a terminal of `max_width` and entries of which the
/// widest takes `width`.
fn candidate_columns(max_width: usize, width: usize) -> (range: Vec<i64>)
    ensures
        as_ints(range@) == candidates(max_width, width),
        forall|i: int| 0 <= i < range@.len() ==> 1 <= #[trigger] range@[i] <= usize::MAX,
{
    let hi: usize = max_width / MIN_FORMAT_ENTRY_LENGTH;
    let whole: usize = if width == usize::MAX {
        0
    } else {
        max_width / (width + 1)
    };
    proof {
        if width == usize::MAX {
            assert(max_width as int / (width as int + 1) == 0) by (nonlinear_arith)
                requires
                    0 <= max_width <= width,
            ;
        }
    }
    let lo: usize = if whole > 1 {
        whole
    } else {
        1
    };
    let stop: usize = if lo - 1 < hi {
        lo - 1
    } else {
        hi
    };
    assert(hi <= i64::MAX && stop <= i64::MAX) by {
        assert(usize::MAX <= u64::MAX);
    }
    let range = range_down(hi as i64, stop as i64);
    proof {
        assert(descending(hi as int, stop as int) =~= descending(hi as int, lo - 1));
        assert forall|i: int| 0 <= i < range@.len() implies 1 <= #[trigger] range@[i]
            <= usize::MAX by {
            assert(as_ints(range@).len() == range@.len());
            assert(as_ints(range@)[i] == hi - i);
        }
    }
    range
}

/// A way of choosing the number of columns for a listing.
pub trait Tabulator {
    /// The number of columns in which entries of the given predicted
    /// widths are laid out on a terminal of `max_width`.
    spec fn columns(&self, max_width: usize, order: EntryOrder, widths: Seq<usize>) -> int;

    /// The listing as a grid of cell texts: the entries laid out in the
    /// chosen number of columns, each column as wide as the widest
    /// prediction in it, each cell written for the width of its column.
    /// No entries give the empty grid.
    fn tabulate<F: Formatter>(&self, config: &Config<F>, names: Vec<Entry>) -> (out: Vec<
        Vec<String>,
    >)
        ensures
            grid_text(out@) == layout(
                config,
                views(names@),
                self.columns(
                    config.max_width,
                    config.entry_order,
                    predicted(&config.formatter, views(names@)),
                ),
            ),
    ;
}

/// Tries every candidate, most columns first, and takes the first in which
/// the entries fit; a single column where none fits.
#[derive(Debug)]
pub struct PlanningTabulator;

impl Tabulator for PlanningTabulator {
    open spec fn columns(&self, max_width: usize, order: EntryOrder, widths: Seq<usize>) -> int {
        chosen(
            candidates(max_width, widest(widths)),
            first_true(column_flags(max_width, order, widths)),
        )
    }

    fn tabulate<F: Formatter>(&self, config: &Config<F>, names: Vec<Entry>) -> (out: Vec<
        Vec<String>,
    >) {
        let width: usize = max_width(config, &names);
        let range = candidate_columns(config.max_width, width);
        let ghost widths = predicted(&config.formatter, views(names@));
        let ghost tried = candidates(config.max_width, widest(widths));
        let ghost flags = column_flags(config.max_width, config.entry_order, widths);
        let mut i: usize = 0;
        while i < range.len()
            invariant
                i <= range.len(),
                widths == predicted(&config.formatter, views(names@)),
                tried == candidates(config.max_width, widest(widths)),
                flags == column_flags(config.max_width, config.entry_order, widths),
                as_ints(range@) == tried,
                forall|k: int| 0 <= k < range@.len() ==> 1 <= #[trigger] range@[k] <= usize::MAX,
                first_true(flags) == first_true_from(flags, i as int),
            decreases range.len() - i,
        {
            assert(as_ints(range@)[i as int] == tried[i as int]);
            let n_cols: usize = range[i] as usize;
            if let Some(column_setup) = is_valid_as_rows(config, &names, n_cols) {
                return format_as_rows(config, &names, column_setup);
            }
            i += 1;
        }
        format_as_rows(config, &names, predict_column_setup(config, &names, 1))
    }
}

/// Searches the candidates by halving for the first in which the entries
/// fit; a single column where it finds none.
#[derive(Debug)]
pub struct BinsearchTabulator;

impl Tabulator for BinsearchTabulator {
    open spec fn columns(&self, max_width: usize, order: EntryOrder, widths: Seq<usize>) -> int {
        chosen(
            candidates(max_width, widest(widths)),
            bisect(column_flags(max_width, order, widths)),
        )
    }

    fn tabulate<F: Formatter>(&self, config: &Config<F>, names: Vec<Entry>) -> (out: Vec<
        Vec<String>,
    >) {
        let width: usize = max_width(config, &names);
        let range = candidate_columns(config.max_width, width);
        let ghost widths = predicted(&config.formatter, views(names@));
        let ghost tried = candidates(config.max_width, widest(widths));
        let ghost flags = column_flags(config.max_width, config.entry_order, widths);
        let pred = |n_cols: &i64| -> (fit: bool)
            requires
                1 <= *n_cols <= usize::MAX,
            ensures
                fit == fits(config, views(names@), *n_cols as int),
            { is_valid_as_rows(config, &names, *n_cols as usize).is_some() };
        proof {
            assert forall|i: int, b: bool|
                0 <= i < range@.len() && call_ensures(pred, (&range@[i],), b) implies b
                == flags[i] by {
                assert(as_ints(range@)[i] == tried[i]);
            }
            assert(describes(range@, pred, flags));
        }
        let n_cols: usize = if let Some(idx) = binsearch(&range, pred) {
            proof {
                lemma_bisect_finds_true(flags, 0, flags.len() as int);
                assert(as_ints(range@)[idx as int] == tried[idx as int]);
            }
            range[idx] as usize
        } else {
            1
        };
        format_as_rows(config, &names, predict_column_setup(config, &names, n_cols))
    }
}

/// Takes as many columns as hold the widest entry and two blanks, without
/// asking whether the entries fit; one column at least.
#[derive(Debug)]
pub struct NaiveTabulator;

impl Tabulator for NaiveTabulator {
    open spec fn columns(&self, max_width: usize, order: EntryOrder, widths: Seq<usize>) -> int {
        let whole = max_width as int / (widest(widths) as int + 2);
        if whole > 1 {
            whole
        } else {
            1
        }
    }

    fn tabulate<F: Formatter>(&self, config: &Config<F>, names: Vec<Entry>) -> (out: Vec<
        Vec<String>,
    >) {
        let widest: usize = max_width(config, &names);
        let whole: usize = if widest > usize::MAX - 2 {
            proof {
                assert(config.max_width as int / (widest as int + 2) == 0) by (nonlinear_arith)
                    requires
                        0 <= config.max_width < widest + 2,
                ;
            }
            0
        } else {
            config.max_width / (widest + 2)
        };
        let rows: usize = if whole > 1 {
            whole
        } else {
            1
        };
        format_as_rows(config, &names, predict_column_setup(config, &names, rows))
    }
}

/// No entries give the empty grid, whatever the number of columns.
pub proof fn lemma_no_entries_no_grid<F: Formatter>(config: &Config<F>, n_cols: int)
    ensures
        layout(config, Seq::<EntryView>::empty(), n_cols) == Seq::<Seq<Seq<char>>>::empty(),
{
    assert(layout(config, Seq::<EntryView>::empty(), n_cols) =~= Seq::<Seq<Seq<char>>>::empty());
}

/// Each column width is part of the sum of them.
proof fn lemma_total_width_holds_each(widths: Seq<usize>, c: int)
    requires
        0 <= c < widths.len(),
    ensures
        widths[c] <= total_width(widths),
    decreases widths.len(),
{
    lemma_total_width_nonnegative(widths.drop_last());
    if c < widths.len() - 1 {
        lemma_total_width_holds_each(widths.drop_last(), c);
    }
}

/// The widest width is one of the widths.
proof fn lemma_widest_is_there(widths: Seq<usize>)
    requires
        widths.len() > 0,
    ensures
        exists|i: int| 0 <= i < widths.len() && widths[i] == widest(widths),
    decreases widths.len(),
{
    let front = widths.drop_last();
    if widths.last() > widest(front) || front.len() == 0 {
        assert(widths[widths.len() - 1] == widest(widths));
    } else {
        lemma_widest_is_there(front);
        let i = choose|i: int| 0 <= i < front.len() && front[i] == widest(front);
        assert(widths[i] == widest(widths));
    }
}

/// In however many columns the entries are laid out, the columns together
/// are at least as wide as the widest entry.
pub proof fn lemma_columns_hold_the_widest(order: EntryOrder, widths: Seq<usize>, n_cols: int)
    requires
        n_cols > 0,
    ensures
        widest(widths) <= total_width(setup_for(order, widths, n_cols)),
{
    if widths.len() == 0 {
        lemma_total_width_nonnegative(setup_for(order, widths, n_cols));
    } else {
        lemma_widest_is_there(widths);
        let i = choose|i: int| 0 <= i < widths.len() && widths[i] == widest(widths);
        let n_rows = row_count(widths.len() as int, n_cols);
        let r = row_of(order, n_rows, n_cols, i);
        let c = filled(order, n_rows, n_cols, i, r);
        let grid = rows_of(order, widths, n_cols);
        lemma_entry_has_its_place(order, widths, n_cols, i);
        lemma_column_width_is_max(grid, c);
        assert(grid[r][c] <= column_width(grid, c));
        lemma_total_width_holds_each(setup_for(order, widths, n_cols), c);
    }
}

/// Where the widest entry is as wide as the terminal or wider, every
/// strategy lays the entries out in one column.
pub proof fn lemma_too_wide_takes_one_column(max_width: usize, order: EntryOrder, widths: Seq<usize>)
    requires
        widest(widths) >= max_width,
    ensures
        PlanningTabulator.columns(max_width, order, widths) == 1,
        BinsearchTabulator.columns(max_width, order, widths) == 1,
        NaiveTabulator.columns(max_width, order, widths) == 1,
{
    let tried = candidates(max_width, widest(widths));
    let flags = column_flags(max_width, order, widths);
    assert forall|i: int| 0 <= i < flags.len() implies !flags[i] by {
        lemma_columns_hold_the_widest(order, widths, tried[i]);
    }
    lemma_first_true_from(flags, 0);
    lemma_bisect_finds_true(flags, 0, flags.len() as int);
    assert(max_width as int / (widest(widths) as int + 2) == 0) by (nonlinear_arith)
        requires
            0 <= max_width <= widest(widths),
    ;
}

/// No width is above the widest.
proof fn lemma_widest_is_above(widths: Seq<usize>, i: int)
    requires
        0 <= i < widths.len(),
    ensures
        widths[i] <= widest(widths),
    decreases widths.len(),
{
    if i < widths.len() - 1 {
        lemma_widest_is_above(widths.drop_last(), i);
    }
}

/// Columns of which none is wider than `bound` are together no wider than
/// as many times `bound`.
proof fn lemma_total_width_bound(widths: Seq<usize>, bound: int)
    requires
        forall|c: int| 0 <= c < widths.len() ==> widths[c] <= bound,
    ensures
        total_width(widths) <= widths.len() * bound,
    decreases widths.len(),
{
    if widths.len() > 0 {
        let front = widths.drop_last();
        lemma_total_width_bound(front, bound);
        assert(front.len() * bound + bound == widths.len() * bound) by (nonlinear_arith)
            requires
                front.len() + 1 == widths.len(),
        ;
    } else {
        assert(widths.len() * bound == 0) by (nonlinear_arith)
            requires
                widths.len() == 0,
        ;
    }
}

/// Where the widest entry is narrower than the terminal, the entries fit
/// in the smallest number of columns that is tried.
pub proof fn lemma_lower_bound_fits(max_width: usize, order: EntryOrder, widths: Seq<usize>)
    requires
        widest(widths) < max_width,
    ensures
        fits_in(max_width, order, widths, min_columns(max_width, widest(widths))),
{
    let most = widest(widths) as int;
    let n = min_columns(max_width, widest(widths));
    assert(n >= 1 && n * most < max_width) by (nonlinear_arith)
        requires
            0 <= most < max_width,
            n == (if max_width as int / (most + 1) > 1 {
                max_width as int / (most + 1)
            } else {
                1
            }),
    ;
    let grid = rows_of(order, widths, n);
    let setup = setup_for(order, widths, n);
    lemma_setup_keeps_layout(order, widths, widths, n);
    assert forall|c: int| 0 <= c < setup.len() implies setup[c] <= most by {
        lemma_column_width_is_max(grid, c);
        let r = choose|r: int|
            0 <= r < grid.len() && c < grid[r].len() && (#[trigger] grid[r])[c] == column_width(
                grid,
                c,
            );
        lemma_cell_in_range(order, widths.len() as int, n, r, c);
        lemma_widest_is_above(
            widths,
            cell_index(order, row_count(widths.len() as int, n), n, r, c),
        );
    }
    lemma_total_width_bound(setup, most);
    assert(setup.len() * most <= n * most) by (nonlinear_arith)
        requires
            0 <= setup.len() <= n,
            0 <= most,
    ;
}

/// Where the widest entry is narrower than the terminal and there is a
/// number of columns to try, the search one by one chooses columns in
/// which the entries fit.
pub proof fn lemma_planning_fits(max_width: usize, order: EntryOrder, widths: Seq<usize>)
    requires
        widest(widths) < max_width,
        min_columns(max_width, widest(widths)) <= max_columns(max_width),
    ensures
        fits_in(max_width, order, widths, PlanningTabulator.columns(max_width, order, widths)),
        min_columns(max_width, widest(widths)) <= PlanningTabulator.columns(
            max_width,
            order,
            widths,
        ) <= max_columns(max_width),
{
    lemma_lower_bound_fits(max_width, order, widths);
    lemma_planning_is_densest(
        max_width,
        order,
        widths,
        min_columns(max_width, widest(widths)),
    );
    lemma_first_true_from(column_flags(max_width, order, widths), 0);
}

/// Where the answers over the candidates are rising, that is, where the
/// entries fit in every smaller candidate once they fit in one, the search
/// by halving and the search one by one choose the same number of columns.
pub proof fn lemma_binsearch_agrees_with_planning(
    max_width: usize,
    order: EntryOrder,
    widths: Seq<usize>,
)
    requires
        rising(column_flags(max_width, order, widths)),
    ensures
        BinsearchTabulator.columns(max_width, order, widths) == PlanningTabulator.columns(
            max_width,
            order,
            widths,
        ),
{
    lemma_bisect_rising(column_flags(max_width, order, widths));
}

/// The search one by one chooses the largest candidate in which the
/// entries fit: no candidate in which they fit is larger than its choice,
/// and they fit in its choice.
pub proof fn lemma_planning_is_densest(
    max_width: usize,
    order: EntryOrder,
    widths: Seq<usize>,
    n_cols: int,
)
    requires
        min_columns(max_width, widest(widths)) <= n_cols <= max_columns(max_width),
        fits_in(max_width, order, widths, n_cols),
    ensures
        n_cols <= PlanningTabulator.columns(max_width, order, widths),
        fits_in(max_width, order, widths, PlanningTabulator.columns(max_width, order, widths)),
{
    let tried = candidates(max_width, widest(widths));
    let flags = column_flags(max_width, order, widths);
    let at = max_columns(max_width) - n_cols;
    assert(tried[at] == n_cols);
    assert(flags[at]);
    lemma_first_true_from(flags, 0);
}

} // verus!
