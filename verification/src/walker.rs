//! The traversal and preview state machine over a finished pattern grid.
//!
//! A cursor walks the grid cell by cell. While the cursor is in the first
//! few rows the walk reveals three source rows in lockstep — the staggered
//! hex layout interleaves them visually — and the previews span those
//! three rows at offset columns. From the boundary row on, the walk is a
//! plain row-by-row traversal with single-cell previews.

use vstd::prelude::*;
use crate::color::Rgb8;
use crate::row_builder::view_grid;

verus! {

/// The grid row index below which the walk reveals three source rows in
/// lockstep and previews span all three.
pub const EARLY_ROWS: usize = 3;

/// The fixed start row of a fresh walk.
pub const START_ROW: usize = 2;

/// The fixed start column of a fresh walk.
pub const START_COL: usize = 1;

/// The persisted cursor: how far the user has advanced through the grid.
#[derive(Clone, Copy, Debug, Hash, PartialEq, Eq, Structural)]
pub struct Progress {
    pub row: usize,
    pub col: usize,
}

impl Progress {
    /// A cursor at the fixed start position.
    pub fn new() -> (p: Progress)
        ensures
            p.row == START_ROW,
            p.col == START_COL,
    {
        Progress { row: START_ROW, col: START_COL }
    }

    /// A cursor at a stored position, as read back from persisted state.
    pub fn restore(row: usize, col: usize) -> (p: Progress)
        ensures
            p.row == row,
            p.col == col,
    {
        Progress { row, col }
    }

    /// Moves the cursor back to the fixed start position.
    pub fn reset(&mut self)
        ensures
            final(self).row == START_ROW,
            final(self).col == START_COL,
    {
        self.row = START_ROW;
        self.col = START_COL;
    }
}

/// The cells shown to guide the user: a single optional cell, or one
/// optional cell per early source row while the cursor is in the
/// staggered region.
#[derive(Clone, Copy, Debug, PartialEq, Eq)]
pub enum NextPreview {
    Pixel(Option<Rgb8>),
    Tri(Option<Rgb8>, Option<Rgb8>, Option<Rgb8>),
}

/// The cell of `grid` at `(row, col)`, or `None` when either index is
/// out of range.
pub open spec fn cell_at(grid: Seq<Seq<Rgb8>>, row: int, col: int) -> Option<Rgb8> {
    if 0 <= row < grid.len() && 0 <= col < grid[row].len() {
        Some(grid[row][col])
    } else {
        None
    }
}

/// The preview of the cell the cursor stands on: `grid[row][col - 1]`
/// from the boundary row on, and the staggered triple at columns
/// `(col, col - 1, col)` of rows 0, 1, 2 before it.
pub open spec fn spec_current_preview(grid: Seq<Seq<Rgb8>>, p: Progress) -> NextPreview {
    if p.row >= EARLY_ROWS {
        NextPreview::Pixel(cell_at(grid, p.row as int, p.col as int - 1))
    } else {
        NextPreview::Tri(
            cell_at(grid, 0, p.col as int),
            cell_at(grid, 1, p.col as int - 1),
            cell_at(grid, 2, p.col as int),
        )
    }
}

/// The preview of the upcoming cell: `grid[row][col]` from the boundary
/// row on, and the staggered triple at columns `(col + 1, col, col + 1)`
/// of rows 0, 1, 2 before it.
pub open spec fn spec_next_preview(grid: Seq<Seq<Rgb8>>, p: Progress) -> NextPreview {
    if p.row >= EARLY_ROWS {
        NextPreview::Pixel(cell_at(grid, p.row as int, p.col as int))
    } else {
        NextPreview::Tri(
            cell_at(grid, 0, p.col as int + 1),
            cell_at(grid, 1, p.col as int),
            cell_at(grid, 2, p.col as int + 1),
        )
    }
}

/// The first `n` cells of a row, or the whole row if it is shorter.
pub open spec fn take_up_to(s: Seq<Rgb8>, n: int) -> Seq<Rgb8> {
    if n <= s.len() {
        s.take(n)
    } else {
        s
    }
}

/// The revealed lines reconstructed from a cursor alone: in the
/// staggered region, the first `col + 1`, `col`, and `col + 1` cells of
/// rows 0, 1, 2; afterwards, the first `row` full rows plus the first
/// `col + 1` cells of row `row - 1`.
pub open spec fn spec_initial_lines(grid: Seq<Seq<Rgb8>>, p: Progress) -> Seq<Seq<Rgb8>> {
    if p.row < EARLY_ROWS {
        seq![
            take_up_to(grid[0], p.col as int + 1),
            take_up_to(grid[1], p.col as int),
            take_up_to(grid[2], p.col as int + 1),
        ]
    } else {
        grid.take(p.row as int).push(take_up_to(grid[p.row - 1], p.col as int + 1))
    }
}

/// The cursor row refers to rows the grid actually has: the staggered
/// region needs the three early rows, and a later row must itself exist.
pub open spec fn row_in_range(grid: Seq<Seq<Rgb8>>, p: Progress) -> bool {
    &&& (p.row < EARLY_ROWS ==> grid.len() >= EARLY_ROWS)
    &&& (p.row >= EARLY_ROWS ==> p.row < grid.len())
}

/// A cursor a walker may stand on: its row is in range and its column
/// can still be stepped.
pub open spec fn valid_position(grid: Seq<Seq<Rgb8>>, p: Progress) -> bool {
    &&& row_in_range(grid, p)
    &&& p.col < usize::MAX
}

/// Whether the line being built has reached the maximum length among the
/// source rows it draws from.
pub open spec fn spec_line_done(grid: Seq<Seq<Rgb8>>, p: Progress) -> bool {
    if p.row < EARLY_ROWS {
        p.col >= grid[0].len() && p.col >= grid[1].len() && p.col >= grid[2].len()
    } else {
        p.col >= grid[p.row as int].len()
    }
}

/// Whether stepping the column once finishes the current line, moving
/// the cursor to the next row.
pub open spec fn spec_wraps(grid: Seq<Seq<Rgb8>>, p: Progress) -> bool {
    spec_line_done(grid, Progress { row: p.row, col: (p.col + 1) as usize })
}

/// The cursor after one `tick`: the column steps once, and the cursor
/// moves to the start of the next row if that finishes the line.
pub open spec fn spec_advance(grid: Seq<Seq<Rgb8>>, p: Progress) -> Progress {
    if spec_wraps(grid, p) {
        Progress { row: (p.row + 1) as usize, col: 0 }
    } else {
        Progress { row: p.row, col: (p.col + 1) as usize }
    }
}

/// Whether the cursor stands on (or past) the last cell of the last row;
/// an empty grid counts as immediately done.
pub open spec fn spec_is_done(grid: Seq<Seq<Rgb8>>, p: Progress) -> bool {
    &&& p.row + 1 >= grid.len()
    &&& p.col + 1 >= (if grid.len() == 0 {
        1int
    } else {
        grid.last().len() as int
    })
}

/// A line grown by one cell wherever its source row still has one.
pub open spec fn maybe_extend(src: Seq<Rgb8>, line: Seq<Rgb8>) -> Seq<Rgb8> {
    if line.len() < src.len() {
        line.push(src[line.len() as int])
    } else {
        line
    }
}

/// The revealed lines after one `tick` from cursor `p`: a fresh empty
/// line is appended if the cursor wrapped, then the three early lines
/// (or the last line) grow in lockstep wherever their source rows still
/// have cells.
pub open spec fn spec_lines_after_tick(
    grid: Seq<Seq<Rgb8>>,
    p: Progress,
    lines: Seq<Seq<Rgb8>>,
) -> Seq<Seq<Rgb8>> {
    let p2 = spec_advance(grid, p);
    let grown = if spec_wraps(grid, p) {
        lines.push(Seq::empty())
    } else {
        lines
    };
    if p2.row < EARLY_ROWS {
        Seq::new(
            grown.len(),
            |i: int|
                if 0 <= i < EARLY_ROWS {
                    maybe_extend(grid[i], grown[i])
                } else {
                    grown[i]
                },
        )
    } else {
        if grown.len() > 0 {
            grown.update(grown.len() - 1, maybe_extend(grid[p2.row as int], grown.last()))
        } else {
            grown
        }
    }
}

} // verus!

verus! {

fn take_prefix(row: &Vec<Rgb8>, n: usize) -> (out: Vec<Rgb8>)
    ensures
        out@ == take_up_to(row@, n as int),
{
    let mut out: Vec<Rgb8> = Vec::new();
    let mut i: usize = 0;
    while i < n && i < row.len()
        invariant
            i <= row@.len(),
            i <= n,
            out@ == row@.take(i as int),
        decreases n - i,
    {
        out.push(row[i]);
        i = i + 1;
        proof {
            assert(out@ =~= row@.take(i as int));
        }
    }
    proof {
        if n <= row@.len() {
            assert(i == n);
        } else {
            assert(i == row@.len());
            assert(row@.take(row@.len() as int) =~= row@);
        }
    }
    out
}

fn cell(rows: &Vec<Vec<Rgb8>>, row: usize, col: usize) -> (c: Option<Rgb8>)
    ensures
        c == cell_at(view_grid(rows@), row as int, col as int),
{
    if row < rows.len() && col < rows[row].len() {
        Some(rows[row][col])
    } else {
        None
    }
}

fn cell_left(rows: &Vec<Vec<Rgb8>>, row: usize, col: usize) -> (c: Option<Rgb8>)
    ensures
        c == cell_at(view_grid(rows@), row as int, col as int - 1),
{
    if col == 0 {
        None
    } else {
        cell(rows, row, col - 1)
    }
}

fn compute_current(rows: &Vec<Vec<Rgb8>>, progress: &Progress) -> (c: NextPreview)
    ensures
        c == spec_current_preview(view_grid(rows@), *progress),
{
    if progress.row >= EARLY_ROWS {
        NextPreview::Pixel(cell_left(rows, progress.row, progress.col))
    } else {
        NextPreview::Tri(
            cell(rows, 0, progress.col),
            cell_left(rows, 1, progress.col),
            cell(rows, 2, progress.col),
        )
    }
}

fn compute_next(rows: &Vec<Vec<Rgb8>>, progress: &Progress) -> (c: NextPreview)
    requires
        progress.row < EARLY_ROWS ==> progress.col < usize::MAX,
    ensures
        c == spec_next_preview(view_grid(rows@), *progress),
{
    if progress.row >= EARLY_ROWS {
        NextPreview::Pixel(cell(rows, progress.row, progress.col))
    } else {
        NextPreview::Tri(
            cell(rows, 0, progress.col + 1),
            cell(rows, 1, progress.col),
            cell(rows, 2, progress.col + 1),
        )
    }
}

fn extended_line(src: &Vec<Rgb8>, line: &Vec<Rgb8>) -> (out: Vec<Rgb8>)
    ensures
        out@ == maybe_extend(src@, line@),
{
    let mut out = crate::row_builder::clone_row(line);
    if line.len() < src.len() {
        out.push(src[line.len()]);
    }
    out
}

/// The walker: the grid, the cursor, the revealed lines, and the current
/// and upcoming previews.
pub struct App {
    pub lines: Vec<Vec<Rgb8>>,
    pub rows: Vec<Vec<Rgb8>>,
    pub current_pixel: NextPreview,
    pub next_pixel: NextPreview,
    pub ensure_current_on_screen: bool,
    pub progress: Progress,
}

impl App {
    /// The mathematical view of the walker's grid.
    pub open spec fn grid(&self) -> Seq<Seq<Rgb8>> {
        view_grid(self.rows@)
    }

    /// The walker's invariant: the cursor stands inside the grid, and in
    /// the staggered region the three lockstep lines exist.
    pub open spec fn wf(&self) -> bool {
        &&& valid_position(self.grid(), self.progress)
        &&& (self.progress.row < EARLY_ROWS ==> self.lines@.len() >= EARLY_ROWS)
    }

    /// Rebuilds the revealed lines that a cursor position denotes.
    pub fn initialize_lines(rows: &Vec<Vec<Rgb8>>, progress: &Progress) -> (lines: Vec<
        Vec<Rgb8>,
    >)
        requires
            valid_position(view_grid(rows@), *progress),
        ensures
            view_grid(lines@) == spec_initial_lines(view_grid(rows@), *progress),
    {
        let mut lines: Vec<Vec<Rgb8>> = Vec::new();
        if progress.row < EARLY_ROWS {
            lines.push(take_prefix(&rows[0], progress.col + 1));
            lines.push(take_prefix(&rows[1], progress.col));
            lines.push(take_prefix(&rows[2], progress.col + 1));
            proof {
                assert(view_grid(lines@) =~= spec_initial_lines(view_grid(rows@), *progress));
            }
        } else {
            let mut i: usize = 0;
            while i < progress.row
                invariant
                    i <= progress.row,
                    progress.row < rows@.len(),
                    lines@.len() == i,
                    forall|j: int| 0 <= j < i ==> lines@[j]@ == rows@[j]@,
                decreases progress.row - i,
            {
                lines.push(crate::row_builder::clone_row(&rows[i]));
                i = i + 1;
            }
            lines.push(take_prefix(&rows[progress.row - 1], progress.col + 1));
            proof {
                assert(view_grid(lines@) =~= spec_initial_lines(view_grid(rows@), *progress));
            }
        }
        lines
    }

    /// A walker over `rows` with its cursor at `progress`: the revealed
    /// lines are rebuilt from the cursor and both previews are computed
    /// by the row-dependent rule.
    pub fn new(rows: Vec<Vec<Rgb8>>, progress: Progress) -> (app: App)
        requires
            valid_position(view_grid(rows@), progress),
        ensures
            app.wf(),
            app.grid() == view_grid(rows@),
            app.progress == progress,
            view_grid(app.lines@) == spec_initial_lines(view_grid(rows@), progress),
            app.current_pixel == spec_current_preview(view_grid(rows@), progress),
            app.next_pixel == spec_next_preview(view_grid(rows@), progress),
            !app.ensure_current_on_screen,
    {
        let lines = App::initialize_lines(&rows, &progress);
        proof {
            assert(lines@.len() == view_grid(lines@).len());
            if progress.row < EARLY_ROWS {
                assert(view_grid(lines@).len() == EARLY_ROWS);
            }
        }
        let next_pixel = compute_next(&rows, &progress);
        let current_pixel = compute_current(&rows, &progress);
        let app = App {
            ensure_current_on_screen: false,
            lines,
            rows,
            current_pixel,
            next_pixel,
            progress,
        };
        app
    }
}

} // verus!

verus! {

fn cell_right(rows: &Vec<Vec<Rgb8>>, row: usize, col: usize) -> (c: Option<Rgb8>)
    ensures
        c == cell_at(view_grid(rows@), row as int, col as int + 1),
{
    if col == usize::MAX {
        if row < rows.len() {
            let n = rows[row].len();
            proof {
                assert(view_grid(rows@)[row as int].len() == n);
            }
        }
        None
    } else {
        cell(rows, row, col + 1)
    }
}

impl App {
    /// True iff the cursor stands on (or past) the last cell of the last
    /// row; an empty grid is immediately done.
    pub fn is_done(&self) -> (done: bool)
        ensures
            done == spec_is_done(self.grid(), self.progress),
    {
        let n = self.rows.len();
        if n == 0 {
            return true;
        }
        let last_len = self.rows[n - 1].len();
        let done_row = self.progress.row >= n - 1;
        let done_col = if last_len == 0 {
            true
        } else {
            self.progress.col >= last_len - 1
        };
        proof {
            assert(self.grid().last() == self.rows@[n - 1]@);
        }
        done_row && done_col
    }

    /// True iff the line being built has reached the maximum length among
    /// the source rows it draws from.
    pub fn is_done_with_line(&self) -> (done: bool)
        requires
            row_in_range(self.grid(), self.progress),
        ensures
            done == spec_line_done(self.grid(), self.progress),
    {
        if self.progress.row < EARLY_ROWS {
            let n0 = self.rows[0].len();
            let n1 = self.rows[1].len();
            let n2 = self.rows[2].len();
            self.progress.col >= n0 && self.progress.col >= n1 && self.progress.col >= n2
        } else {
            self.progress.col >= self.rows[self.progress.row].len()
        }
    }

    /// Moves the cursor back to the fixed start position and rebuilds the
    /// revealed lines from scratch; the grid and the previews are left as
    /// they are.
    pub fn reset(&mut self)
        requires
            old(self).wf(),
        ensures
            final(self).wf(),
            final(self).rows@ == old(self).rows@,
            final(self).progress.row == START_ROW,
            final(self).progress.col == START_COL,
            view_grid(final(self).lines@) == spec_initial_lines(
                old(self).grid(),
                Progress { row: START_ROW, col: START_COL },
            ),
            final(self).current_pixel == old(self).current_pixel,
            final(self).next_pixel == old(self).next_pixel,
            final(self).ensure_current_on_screen == old(self).ensure_current_on_screen,
    {
        self.progress.reset();
        let lines = App::initialize_lines(&self.rows, &self.progress);
        proof {
            assert(lines@.len() == view_grid(lines@).len());
        }
        self.lines = lines;
    }
}

} // verus!

verus! {

impl App {
    /// One step of the walk: flags the viewport for scrolling, steps the
    /// cursor (wrapping to the next row when the line is full, which
    /// also opens a fresh revealed line), promotes the old lookahead to
    /// the current preview — or reseeds it from the new row's first cell
    /// on a wrap — grows the revealed lines in lockstep, and recomputes
    /// the lookahead. The cursor only ever moves forward: callers must
    /// stop once `is_done` reports true.
    pub fn tick(&mut self)
        requires
            old(self).wf(),
            !spec_is_done(old(self).grid(), old(self).progress),
        ensures
            final(self).wf(),
            final(self).rows@ == old(self).rows@,
            final(self).ensure_current_on_screen,
            final(self).progress == spec_advance(old(self).grid(), old(self).progress),
            old(self).progress.row < final(self).progress.row || (old(self).progress.row
                == final(self).progress.row && old(self).progress.col
                < final(self).progress.col),
            view_grid(final(self).lines@) == spec_lines_after_tick(
                old(self).grid(),
                old(self).progress,
                view_grid(old(self).lines@),
            ),
            final(self).current_pixel == (if spec_wraps(old(self).grid(), old(self).progress) {
                NextPreview::Pixel(cell_at(old(self).grid(), old(self).progress.row + 1, 0))
            } else {
                old(self).next_pixel
            }),
            final(self).next_pixel == spec_next_preview(
                old(self).grid(),
                spec_advance(old(self).grid(), old(self).progress),
            ),
    {
        let ghost g = self.grid();
        let ghost p0 = self.progress;
        let ghost lines0 = view_grid(self.lines@);
        self.ensure_current_on_screen = true;
        self.progress.col = self.progress.col + 1;
        self.current_pixel = self.next_pixel;
        let wrapped = self.is_done_with_line();
        let _n = self.rows.len();
        if wrapped {
            proof {
                if p0.row >= EARLY_ROWS {
                    if p0.row + 1 >= g.len() {
                        assert(g.last() == g[p0.row as int]);
                        assert(false);
                    }
                } else {
                    if p0.row + 1 == EARLY_ROWS && g.len() <= EARLY_ROWS {
                        assert(g.len() == EARLY_ROWS);
                        assert(g.last() == g[2]);
                        assert(false);
                    }
                }
            }
            self.progress.row = self.progress.row + 1;
            self.progress.col = 0;
            self.lines.push(Vec::new());
            self.current_pixel = NextPreview::Pixel(cell(&self.rows, self.progress.row, 0));
            proof {
                assert(view_grid(self.lines@) =~= lines0.push(Seq::empty()));
            }
        } else {
            proof {
                assert(!spec_line_done(g, self.progress));
            }
            if self.progress.row < EARLY_ROWS {
                let n0 = self.rows[0].len();
                let n1 = self.rows[1].len();
                let n2 = self.rows[2].len();
                proof {
                    assert(self.progress.col < n0 || self.progress.col < n1
                        || self.progress.col < n2);
                }
            } else {
                let nr = self.rows[self.progress.row].len();
                proof {
                    assert(self.progress.col < nr);
                }
            }
        }
        let ghost grown = view_grid(self.lines@);
        let ghost p2 = self.progress;
        proof {
            assert(p2 == spec_advance(g, p0));
        }
        if self.progress.row < EARLY_ROWS {
            let l0 = extended_line(&self.rows[0], &self.lines[0]);
            self.lines.set(0, l0);
            let l1 = extended_line(&self.rows[1], &self.lines[1]);
            self.lines.set(1, l1);
            let l2 = extended_line(&self.rows[2], &self.lines[2]);
            self.lines.set(2, l2);
            proof {
                assert(view_grid(self.lines@) =~= spec_lines_after_tick(g, p0, lines0));
            }
        } else {
            if self.lines.len() > 0 {
                let li = self.lines.len() - 1;
                let nl = extended_line(&self.rows[self.progress.row], &self.lines[li]);
                self.lines.set(li, nl);
            }
            proof {
                assert(view_grid(self.lines@) =~= spec_lines_after_tick(g, p0, lines0));
            }
        }
        self.next_pixel = compute_next(&self.rows, &self.progress);
    }
}

} // verus!

verus! {

/// Law: a walker whose cursor stands at the fixed start position and
/// whose revealed lines were rebuilt from it — which is exactly what
/// `reset` leaves behind — shows the same lines and the same previews as
/// any freshly constructed walker over the same grid at that position.
pub proof fn lemma_reset_matches_fresh(after_reset: App, fresh: App)
    requires
        after_reset.grid() == fresh.grid(),
        after_reset.progress == (Progress { row: START_ROW, col: START_COL }),
        fresh.progress == (Progress { row: START_ROW, col: START_COL }),
        view_grid(after_reset.lines@) == spec_initial_lines(
            after_reset.grid(),
            after_reset.progress,
        ),
        view_grid(fresh.lines@) == spec_initial_lines(fresh.grid(), fresh.progress),
    ensures
        view_grid(after_reset.lines@) == view_grid(fresh.lines@),
        spec_current_preview(after_reset.grid(), after_reset.progress) == spec_current_preview(
            fresh.grid(),
            fresh.progress,
        ),
        spec_next_preview(after_reset.grid(), after_reset.progress) == spec_next_preview(
            fresh.grid(),
            fresh.progress,
        ),
{
}

/// Law: when the cursor stands on the last cell of the last row, the
/// lookahead holds no color in any slot, and the walk reports done.
pub proof fn lemma_preview_edge(grid: Seq<Seq<Rgb8>>, p: Progress)
    requires
        row_in_range(grid, p),
        p.row + 1 >= grid.len(),
        p.row >= EARLY_ROWS ==> p.col >= grid[p.row as int].len(),
        p.row < EARLY_ROWS ==> p.col + 1 >= grid[0].len() && p.col >= grid[1].len() && p.col + 1
            >= grid[2].len(),
    ensures
        spec_is_done(grid, p),
        p.row >= EARLY_ROWS ==> spec_next_preview(grid, p) == NextPreview::Pixel(
            Option::<Rgb8>::None,
        ),
        p.row < EARLY_ROWS ==> spec_next_preview(grid, p) == NextPreview::Tri(
            Option::<Rgb8>::None,
            Option::<Rgb8>::None,
            Option::<Rgb8>::None,
        ),
{
    if p.row >= EARLY_ROWS {
        assert(grid.last() == grid[p.row as int]);
    } else {
        assert(grid.len() == EARLY_ROWS);
        assert(grid.last() == grid[2]);
    }
}

} // verus!
