//! A directory listing with a glyph and a colour per entry, laid out in
//! columns that fit the terminal.
//!
//! The modules hold the planner that gives every column its own width
//! ([`tabulator`]) with the cell writers it uses ([`formatter`]). The items
//! of this file are the plain grid: rows of a fixed number of cells, filled
//! row by row, the last row as long as the entries that are left.

pub mod colors;
pub mod formatter;
pub mod listing;
pub mod options;
pub mod order;
pub mod tabulator;
pub mod text;

pub use crate::formatter::{strlen, Entry, LongFormat, ShortFormat};

use vstd::prelude::*;
use crate::colors::{ColorMap, ColorType, RealColor};
use crate::formatter::{cell_text, clipped, grapheme_count, palette_color, EntryView};
use crate::options::Options;
use crate::tabulator::{
    as_ints, cell_index, column_setup, descending, first_true, first_true_from, fits_in,
    grid_text, lemma_column_width_is_max, lemma_columns_hold_the_widest,
    lemma_first_true_from, lemma_lower_bound_fits, lemma_quotient, lemma_rounded_up,
    lemma_row_count, row_count,
    row_len, rows_of, range_down, setup_for, total_width, column_setup_of, unfold, views,
    widest, EntryOrder,
};

verus! {

/// How much the program says about what it does.
#[derive(Debug, PartialEq, Eq, Clone, Copy, Structural)]
pub enum Verbosity {
    Quiet,
    Warn,
    Debug,
}

/// The tables, the width of the terminal and the cell writer of a plain
/// grid.
#[derive(Debug)]
pub struct Config<P> {
    pub files: Options,
    pub file_aliases: Options,
    pub folders: Options,
    pub folder_aliases: Options,
    pub colors: ColorMap,
    pub max_width: usize,
    pub printer: P,
}

/// What one run of the program is asked to do: which directory to list,
/// with what configuration, and by which strategy of laying the entries
/// out.
#[derive(Debug)]
pub struct Action<C, F> {
    pub verbosity: Verbosity,
    pub directory: String,
    pub config: C,
    pub formatter: F,
}

/// The width of the column that a cell is written for.
#[derive(Debug, Clone, Copy)]
pub struct EntryPrinterConfig {
    pub width: usize,
}

/// A way of writing one entry into a cell of a plain grid, and of saying
/// beforehand how wide the cell will have to be.
pub trait EntryPrinter {
    /// The text that `format` writes.
    spec fn spec_format(
        &self,
        colors: Map<ColorType, RealColor>,
        width: usize,
        entry: EntryView,
    ) -> Seq<char>;

    /// The width that `predict` gives.
    spec fn spec_predict(&self, entry: EntryView) -> nat;

    /// The entry as the text of a cell of width `ep_config.width`, in the
    /// colour that `config` gives its category.
    fn format<P>(&self, config: &Config<P>, ep_config: &EntryPrinterConfig, entry: &Entry) -> (out:
        String)
        ensures
            out@ == self.spec_format(config.colors@, ep_config.width, entry@),
    ;

    /// The width that a column needs to hold the entry.
    fn predict(&self, entry: &Entry) -> (width: usize)
        ensures
            width == self.spec_predict(entry@),
    ;
}

impl EntryPrinter for LongFormat {
    open spec fn spec_format(
        &self,
        colors: Map<ColorType, RealColor>,
        width: usize,
        entry: EntryView,
    ) -> Seq<char> {
        cell_text(entry.attr.icon, palette_color(colors, entry.attr.color), entry.path, width)
    }

    open spec fn spec_predict(&self, entry: EntryView) -> nat {
        clipped(grapheme_count(entry.path) + 2)
    }

    fn format<P>(&self, config: &Config<P>, ep_config: &EntryPrinterConfig, entry: &Entry) -> (out:
        String) {
        crate::formatter::write_cell(&config.colors, ep_config.width, &entry.attr, &entry.path)
    }

    fn predict(&self, entry: &Entry) -> (width: usize) {
        crate::formatter::width_of(strlen(&entry.path), 2)
    }
}

impl EntryPrinter for ShortFormat {
    open spec fn spec_format(
        &self,
        colors: Map<ColorType, RealColor>,
        width: usize,
        entry: EntryView,
    ) -> Seq<char> {
        cell_text(entry.attr.icon, palette_color(colors, entry.attr.color), entry.name, width)
    }

    open spec fn spec_predict(&self, entry: EntryView) -> nat {
        clipped(grapheme_count(entry.name) + 3)
    }

    fn format<P>(&self, config: &Config<P>, ep_config: &EntryPrinterConfig, entry: &Entry) -> (out:
        String) {
        crate::formatter::write_cell(&config.colors, ep_config.width, &entry.attr, &entry.name)
    }

    fn predict(&self, entry: &Entry) -> (width: usize) {
        crate::formatter::width_of(strlen(&entry.name), 3)
    }
}

/// A whole row lies within the list.
proof fn lemma_whole_row(len: int, row_cap: int, r: int)
    requires
        row_cap > 0,
        0 <= r < len / row_cap,
    ensures
        0 <= r * row_cap,
        r * row_cap + row_cap <= len,
{
    assert(0 <= r * row_cap && r * row_cap + row_cap <= (len / row_cap) * row_cap && (len
        / row_cap) * row_cap <= len) by (nonlinear_arith)
        requires
            row_cap > 0,
            0 <= r < len / row_cap,
    ;
}

/// Cuts a list into rows of `row_cap` items, in order. Every item stands
/// in a row: the last row holds what is left and may be shorter.
pub fn as_rows<T: Copy>(names: &Vec<T>, row_cap: usize) -> (rows: Vec<Vec<T>>)
    requires
        row_cap > 0,
    ensures
        unfold(rows@) == rows_of(EntryOrder::Horizontal, names@, row_cap as int),
{
    let mut rows: Vec<Vec<T>> = Vec::new();
    let mut row: Vec<T> = Vec::new();
    let mut i: usize = 0;
    proof {
        lemma_quotient(0, row_cap as int, 0, 0);
        assert(rows@.len() * row_cap == 0);
        assert(row@ =~= names@.subrange(0, 0));
    }
    while i < names.len()
        invariant
            row_cap > 0,
            i <= names.len(),
            rows@.len() == i as int / row_cap as int,
            i == rows@.len() * row_cap + i as int % row_cap as int,
            forall|r: int|
                0 <= r < rows@.len() ==> (#[trigger] rows@[r])@ == names@.subrange(
                    r * row_cap,
                    r * row_cap + row_cap,
                ),
            row@ == names@.subrange(rows@.len() * row_cap, i as int),
        decreases names.len() - i,
    {
        let ghost q = i as int / row_cap as int;
        let ghost m = i as int % row_cap as int;
        proof {
            assert(0 <= m < row_cap && 0 <= q) by (nonlinear_arith)
                requires
                    row_cap > 0,
                    i >= 0,
                    q == i as int / row_cap as int,
                    m == i as int % row_cap as int,
            ;
            if m == row_cap - 1 {
                assert(i + 1 == (q + 1) * row_cap + 0) by (nonlinear_arith)
                    requires
                        i == q * row_cap + m,
                        m == row_cap - 1,
                ;
                lemma_quotient(i + 1, row_cap as int, q + 1, 0);
            } else {
                lemma_quotient(i + 1, row_cap as int, q, m + 1);
            }
        }
        row.push(names[i]);
        assert(row@ =~= names@.subrange(q * row_cap, i + 1));
        if i % row_cap == row_cap - 1 {
            let ghost above = rows@;
            rows.push(row);
            row = Vec::new();
            proof {
                assert(q * row_cap + row_cap == i + 1) by (nonlinear_arith)
                    requires
                        i + 1 == (q + 1) * row_cap + 0,
                ;
                assert forall|r: int| 0 <= r < rows@.len() implies (#[trigger] rows@[r])@
                    == names@.subrange(r * row_cap, r * row_cap + row_cap) by {
                    if r < above.len() {
                        assert(rows@[r] == above[r]);
                    }
                }
                assert(row@ =~= names@.subrange(rows@.len() * row_cap, i + 1));
            }
        }
        i += 1;
    }
    let ghost len = names@.len() as int;
    let ghost q = len / row_cap as int;
    let ghost m = len % row_cap as int;
    let ghost whole = rows@;
    proof {
        assert(0 <= m < row_cap && 0 <= q) by (nonlinear_arith)
            requires
                row_cap > 0,
                len >= 0,
                q == len / row_cap as int,
                m == len % row_cap as int,
        ;
    }
    if row.len() > 0 {
        rows.push(row);
    }
    proof {
        let order = EntryOrder::Horizontal;
        let want = rows_of(order, names@, row_cap as int);
        let n_rows = row_count(len, row_cap as int);
        if len > 0 {
            if m == 0 {
                assert(len + row_cap - 1 == q * row_cap + (row_cap - 1)) by (nonlinear_arith)
                    requires
                        len == q * row_cap + m,
                        m == 0,
                ;
                lemma_quotient(len + row_cap - 1, row_cap as int, q, row_cap - 1);
            } else {
                assert(len + row_cap - 1 == (q + 1) * row_cap + (m - 1)) by (nonlinear_arith)
                    requires
                        len == q * row_cap + m,
                ;
                lemma_quotient(len + row_cap - 1, row_cap as int, q + 1, m - 1);
            }
        }
        assert(rows@.len() == n_rows);
        assert forall|r: int| 0 <= r < rows@.len() implies unfold(rows@)[r] =~= want[r] by {
            if r < q {
                assert(rows@[r] == whole[r]);
                lemma_whole_row(len, row_cap as int, r);
                assert(row_len(order, len, row_cap as int, r) == row_cap);
            } else {
                assert(r == q);
                assert(row_len(order, len, row_cap as int, r) == m);
            }
            assert forall|c: int| 0 <= c < want[r].len() implies unfold(rows@)[r][c]
                == want[r][c] by {
                assert(cell_index(order, n_rows, row_cap as int, r, c) == r * row_cap + c);
            }
        }
        assert(unfold(rows@) =~= want);
    }
    rows
}

/// Whether a grid of entry widths fits a terminal of `max_width`: it does
/// where the widths of its columns, each as wide as its widest entry, sum
/// to strictly less.
pub fn is_valid(out: Vec<Vec<usize>>, max_width: usize) -> (fits: bool)
    ensures
        fits == (total_width(column_setup_of(unfold(out@))) < max_width),
{
    let col_widths = column_setup(out);
    crate::tabulator::is_valid(&col_widths, max_width)
}

/// The width that the printer predicts for each entry.
pub open spec fn predicted<P: EntryPrinter>(printer: &P, names: Seq<EntryView>) -> Seq<usize> {
    Seq::new(names.len(), |i: int| printer.spec_predict(names[i]) as usize)
}

/// Whether entries of the given widths fit a terminal of `max_width` in
/// rows of `row_cap`.
pub open spec fn fits_in_rows(max_width: usize, widths: Seq<usize>, row_cap: int) -> bool {
    fits_in(max_width, EntryOrder::Horizontal, widths, row_cap)
}

/// The predicted width of every entry, in the order of the list.
fn predictions<P: EntryPrinter>(config: &Config<P>, names: &Vec<Entry>) -> (widths: Vec<usize>)
    ensures
        widths@ == predicted(&config.printer, views(names@)),
{
    let mut widths: Vec<usize> = Vec::new();
    let mut i: usize = 0;
    while i < names.len()
        invariant
            i <= names.len(),
            widths@.len() == i,
            forall|k: int|
                0 <= k < i ==> widths@[k] == config.printer.spec_predict(names@[k]@) as usize,
        decreases names.len() - i,
    {
        widths.push(config.printer.predict(&names[i]));
        i += 1;
    }
    assert(widths@ =~= predicted(&config.printer, views(names@)));
    widths
}

/// Whether the entries fit the terminal in rows of `row_cap`.
pub fn is_valid_as_rows<P: EntryPrinter>(config: &Config<P>, names: &Vec<Entry>, row_cap: usize) -> (fits:
    bool)
    requires
        row_cap > 0,
    ensures
        fits == fits_in_rows(
            config.max_width,
            predicted(&config.printer, views(names@)),
            row_cap as int,
        ),
{
    let widths = predictions(config, names);
    is_valid(as_rows(&widths, row_cap), config.max_width)
}

/// The text of every cell of the plain grid: the entries in rows of
/// `row_cap`, each cell written for a column as wide as the widest
/// prediction in it.
pub open spec fn plain_grid<P: EntryPrinter>(
    printer: &P,
    colors: Map<ColorType, RealColor>,
    names: Seq<EntryView>,
    row_cap: int,
) -> Seq<Seq<Seq<char>>> {
    let rows = rows_of(EntryOrder::Horizontal, names, row_cap);
    let setup = setup_for(EntryOrder::Horizontal, predicted(printer, names), row_cap);
    Seq::new(
        rows.len(),
        |r: int|
            Seq::new(
                rows[r].len(),
                |c: int| printer.spec_format(colors, setup[c], rows[r][c]),
            ),
    )
}

/// Writes the plain grid in rows of `row_cap`: every entry has its cell,
/// and the last row holds the entries that are left. No entries give the
/// empty grid, and so do rows of no cells.
pub fn format_as_rows<P: EntryPrinter>(config: &Config<P>, names: &Vec<Entry>, row_cap: usize) -> (out:
    Vec<Vec<String>>)
    ensures
        grid_text(out@) == plain_grid(
            &config.printer,
            config.colors@,
            views(names@),
            row_cap as int,
        ),
{
    let ghost want = plain_grid(&config.printer, config.colors@, views(names@), row_cap as int);
    let ghost order = EntryOrder::Horizontal;
    let mut out: Vec<Vec<String>> = Vec::new();
    let len: usize = names.len();
    if row_cap == 0 || len == 0 {
        assert(grid_text(out@) =~= want);
        return out;
    }
    let widths = predictions(config, names);
    let col_widths = column_setup(as_rows(&widths, row_cap));
    let n_rows: usize = (len - 1) / row_cap + 1;
    let ghost grid = rows_of(order, widths@, row_cap as int);
    proof {
        lemma_row_count(len as int, row_cap as int);
        lemma_rounded_up(len as int, row_cap as int);
        lemma_column_width_is_max(grid, 0);
    }
    let mut ep_configs: Vec<EntryPrinterConfig> = Vec::new();
    let mut x: usize = 0;
    while x < col_widths.len()
        invariant
            x <= col_widths.len(),
            ep_configs@.len() == x,
            forall|c: int| 0 <= c < x ==> (#[trigger] ep_configs@[c]).width == col_widths@[c],
        decreases col_widths.len() - x,
    {
        ep_configs.push(EntryPrinterConfig { width: col_widths[x] });
        x += 1;
    }
    let mut r: usize = 0;
    while r < n_rows
        invariant
            r <= n_rows,
            row_cap > 0,
            len == names@.len(),
            len > 0,
            n_rows == row_count(len as int, row_cap as int),
            (n_rows - 1) * row_cap < len,
            order == EntryOrder::Horizontal,
            want == plain_grid(&config.printer, config.colors@, views(names@), row_cap as int),
            widths@ == predicted(&config.printer, views(names@)),
            grid == rows_of(order, widths@, row_cap as int),
            col_widths@ == column_setup_of(grid),
            forall|k: int| 0 <= k < grid.len() ==> (#[trigger] grid[k]).len() <= col_widths@.len(),
            ep_configs@.len() == col_widths@.len(),
            forall|c: int|
                0 <= c < col_widths@.len() ==> (#[trigger] ep_configs@[c]).width == col_widths@[c],
            out@.len() == r,
            forall|k: int| 0 <= k < r ==> grid_text(out@)[k] == want[k],
        decreases n_rows - r,
    {
        proof {
            assert(0 <= r * row_cap && r * row_cap <= (n_rows - 1) * row_cap) by (nonlinear_arith)
                requires
                    0 <= r <= n_rows - 1,
                    row_cap > 0,
            ;
        }
        let start: usize = r * row_cap;
        let count: usize = if len - start < row_cap {
            len - start
        } else {
            row_cap
        };
        proof {
            assert(row_len(order, len as int, row_cap as int, r as int) == count);
            assert(grid[r as int].len() == count);
            assert(want[r as int].len() == count);
        }
        let mut cells: Vec<String> = Vec::new();
        let mut c: usize = 0;
        while c < count
            invariant
                c <= count,
                r < n_rows,
                row_cap > 0,
                len == names@.len(),
                start == r * row_cap,
                start + count <= len,
                count <= col_widths@.len(),
                count == want[r as int].len(),
                n_rows == row_count(len as int, row_cap as int),
                order == EntryOrder::Horizontal,
                want == plain_grid(&config.printer, config.colors@, views(names@), row_cap as int),
                widths@ == predicted(&config.printer, views(names@)),
                col_widths@ == column_setup_of(rows_of(order, widths@, row_cap as int)),
                ep_configs@.len() == col_widths@.len(),
                forall|k: int|
                    0 <= k < col_widths@.len() ==> (#[trigger] ep_configs@[k]).width
                        == col_widths@[k],
                cells@.len() == c,
                forall|k: int| 0 <= k < c ==> (#[trigger] cells@[k])@ == want[r as int][k],
            decreases count - c,
        {
            proof {
                assert(cell_index(order, n_rows as int, row_cap as int, r as int, c as int)
                    == start + c);
            }
            let cell = config.printer.format(config, &ep_configs[c], &names[start + c]);
            cells.push(cell);
            c += 1;
        }
        let ghost before = out@;
        out.push(cells);
        proof {
            assert forall|k: int| 0 <= k < r + 1 implies grid_text(out@)[k] == want[k] by {
                if k < r {
                    assert(grid_text(before)[k] == want[k]);
                    assert(grid_text(out@)[k] =~= grid_text(before)[k]);
                } else {
                    assert(grid_text(out@)[k] =~= want[k]);
                }
            }
        }
        r += 1;
    }
    assert(grid_text(out@) =~= want);
    out
}

/// The widest predicted width among the entries; 0 for no entries.
pub fn max_width<P: EntryPrinter>(config: &Config<P>, names: &Vec<Entry>) -> (width: usize)
    ensures
        width == widest(predicted(&config.printer, views(names@))),
{
    let ghost all = predicted(&config.printer, views(names@));
    let mut width: usize = 0;
    let mut i: usize = 0;
    assert(all.take(0) =~= Seq::<usize>::empty());
    while i < names.len()
        invariant
            i <= names.len(),
            all == predicted(&config.printer, views(names@)),
            width == widest(all.take(i as int)),
        decreases names.len() - i,
    {
        let cwidth: usize = config.printer.predict(&names[i]);
        assert(all.take(i + 1).drop_last() =~= all.take(i as int));
        assert(all.take(i + 1).last() == cwidth);
        if cwidth > width {
            width = cwidth;
        }
        i += 1;
    }
    assert(all.take(i as int) =~= all);
    width
}

/// The narrowest cell that the search plans for: it sets the longest row
/// that is tried.
pub const MIN_FORMAT_ENTRY_LENGTH: usize = 5;

/// The longest row that is tried: as many cells of the narrowest kind as
/// the terminal holds.
pub open spec fn max_rows(max_width: usize) -> int {
    max_width as int / MIN_FORMAT_ENTRY_LENGTH as int
}

/// The shortest row, which is taken where no longer one fits: as many
/// cells as hold the widest entry and a blank, and one at least.
pub open spec fn min_rows(max_width: usize, widest: usize) -> int {
    let whole = max_width as int / (widest as int + 1);
    if whole > 1 {
        whole
    } else {
        1
    }
}

/// For each row length that is tried, longest first, whether entries of
/// the given widths fit in rows of it. The lengths run from [`max_rows`]
/// down to the one above [`min_rows`].
pub open spec fn row_flags(max_width: usize, widths: Seq<usize>) -> Seq<bool> {
    let tried = descending(max_rows(max_width), min_rows(max_width, widest(widths)));
    Seq::new(tried.len(), |i: int| fits_in_rows(max_width, widths, tried[i]))
}

/// The row length that the search one by one takes: the longest that is
/// tried and in which the entries fit, and [`min_rows`] where none fits.
pub open spec fn planned_row_cap(max_width: usize, widths: Seq<usize>) -> int {
    let low = min_rows(max_width, widest(widths));
    let tried = descending(max_rows(max_width), low);
    match first_true(row_flags(max_width, widths)) {
        Some(at) => tried[at],
        None => low,
    }
}

/// The row length that is taken without a search: as many cells as hold
/// the widest entry and two blanks, and one at least.
pub open spec fn naive_row_cap(max_width: usize, widths: Seq<usize>) -> int {
    let whole = max_width as int / (widest(widths) as int + 2);
    if whole > 1 {
        whole
    } else {
        1
    }
}

/// Where the widest entry is as wide as the terminal or wider, both ways
/// of choosing put one cell in a row.
pub proof fn lemma_too_wide_takes_one_cell(max_width: usize, widths: Seq<usize>)
    requires
        widest(widths) >= max_width,
    ensures
        planned_row_cap(max_width, widths) == 1,
        naive_row_cap(max_width, widths) == 1,
{
    let most = widest(widths) as int;
    assert(max_width as int / (most + 1) == 0 && max_width as int / (most + 2) == 0)
        by (nonlinear_arith)
        requires
            0 <= max_width <= most,
    ;
    let tried = descending(max_rows(max_width), 1);
    let flags = row_flags(max_width, widths);
    assert forall|i: int| 0 <= i < flags.len() implies !flags[i] by {
        lemma_columns_hold_the_widest(EntryOrder::Horizontal, widths, tried[i]);
    }
    lemma_first_true_from(flags, 0);
}

/// Where the widest entry is narrower than the terminal, the entries fit in
/// rows of the length that the search one by one takes.
pub proof fn lemma_planned_rows_fit(max_width: usize, widths: Seq<usize>)
    requires
        widest(widths) < max_width,
    ensures
        fits_in_rows(max_width, widths, planned_row_cap(max_width, widths)),
{
    lemma_first_true_from(row_flags(max_width, widths), 0);
    lemma_lower_bound_fits(max_width, EntryOrder::Horizontal, widths);
}

/// A way of choosing the length of the rows of a plain grid.
pub trait Formatter {
    /// The number of cells in a row for entries of the given predicted
    /// widths on a terminal of `max_width`.
    spec fn row_cap(&self, max_width: usize, widths: Seq<usize>) -> int;

    /// The listing as a plain grid of cell texts in rows of the chosen
    /// length.
    fn format<P: EntryPrinter>(&self, config: &Config<P>, names: Vec<Entry>) -> (out: Vec<
        Vec<String>,
    >)
        ensures
            grid_text(out@) == plain_grid(
                &config.printer,
                config.colors@,
                views(names@),
                self.row_cap(config.max_width, predicted(&config.printer, views(names@))),
            ),
    ;
}

/// Tries the row lengths from [`max_rows`] downwards and takes the first
/// in which the entries fit; takes [`min_rows`] where none above it fits.
#[derive(Debug)]
pub struct PlanningFormatter {}

impl Formatter for PlanningFormatter {
    open spec fn row_cap(&self, max_width: usize, widths: Seq<usize>) -> int {
        planned_row_cap(max_width, widths)
    }

    fn format<P: EntryPrinter>(&self, config: &Config<P>, names: Vec<Entry>) -> (out: Vec<
        Vec<String>,
    >) {
        let width: usize = max_width(config, &names);
        let whole: usize = if width == usize::MAX {
            proof {
                assert(config.max_width as int / (width as int + 1) == 0) by (nonlinear_arith)
                    requires
                        0 <= config.max_width <= width,
                ;
            }
            0
        } else {
            config.max_width / (width + 1)
        };
        let low: usize = if whole > 1 {
            whole
        } else {
            1
        };
        let high: usize = config.max_width / MIN_FORMAT_ENTRY_LENGTH;
        let stop: usize = if low < high {
            low
        } else {
            high
        };
        assert(high <= i64::MAX && stop <= i64::MAX) by {
            assert(usize::MAX <= u64::MAX);
        }
        let range = range_down(high as i64, stop as i64);
        let ghost widths = predicted(&config.printer, views(names@));
        let ghost tried = descending(high as int, low as int);
        let ghost flags = row_flags(config.max_width, widths);
        assert(descending(high as int, stop as int) =~= tried);
        let mut i: usize = 0;
        while i < range.len()
            invariant
                i <= range.len(),
                widths == predicted(&config.printer, views(names@)),
                tried == descending(high as int, low as int),
                high == max_rows(config.max_width),
                low == min_rows(config.max_width, widest(widths)),
                flags == row_flags(config.max_width, widths),
                as_ints(range@) == tried,
                first_true(flags) == first_true_from(flags, i as int),
            decreases range.len() - i,
        {
            assert(as_ints(range@).len() == range@.len());
            assert(as_ints(range@)[i as int] == tried[i as int]);
            let row_cap: usize = range[i] as usize;
            if is_valid_as_rows(config, &names, row_cap) {
                return format_as_rows(config, &names, row_cap);
            }
            i += 1;
        }
        format_as_rows(config, &names, low)
    }
}

/// Takes rows of as many cells as hold the widest entry and two blanks,
/// without asking whether the entries fit; one cell at least.
#[derive(Debug)]
pub struct NaiveFormatter {}

impl Formatter for NaiveFormatter {
    open spec fn row_cap(&self, max_width: usize, widths: Seq<usize>) -> int {
        naive_row_cap(max_width, widths)
    }

    fn format<P: EntryPrinter>(&self, config: &Config<P>, names: Vec<Entry>) -> (out: Vec<
        Vec<String>,
    >) {
        let widest: usize = max_width(config, &names);
        let whole: usize = if widest > usize::MAX - 2 {
            proof {
                assert(config.max_width as int / (widest as int + 2) == 0) by (nonlinear_arith)
                    requires
                        0 <= config.max_width < widest + 2,
                ;
            }
            0
        } else {
            config.max_width / (widest + 2)
        };
        let rows: usize = if whole > 1 {
            whole
        } else {
            1
        };
        format_as_rows(config, &names, rows)
    }
}

} // verus!
