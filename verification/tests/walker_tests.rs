use ipp::App;
use ipp::NextPreview;
use ipp::Progress;
use ipp::Rgb8;

fn rgb(v: u8) -> Rgb8 {
    Rgb8 { r: v, g: v, b: v }
}

fn a() -> Rgb8 {
    rgb(1)
}

fn b() -> Rgb8 {
    rgb(2)
}

fn c() -> Rgb8 {
    rgb(3)
}

fn d() -> Rgb8 {
    rgb(4)
}

fn e() -> Rgb8 {
    rgb(5)
}

fn f() -> Rgb8 {
    rgb(6)
}

fn g() -> Rgb8 {
    rgb(7)
}

/// A small staggered grid: rows of unequal length.
fn grid1() -> Vec<Vec<Rgb8>> {
    vec![vec![a(), b()], vec![c()], vec![d(), e(), f()], vec![g()]]
}

#[test]
fn fresh_walker_at_start_reveals_three_lines() {
    let app = App::new(grid1(), Progress::new());
    assert_eq!(app.progress, Progress::restore(2, 1));
    assert_eq!(app.lines, vec![vec![a(), b()], vec![c()], vec![d(), e()]]);
    assert!(!app.ensure_current_on_screen);
}

#[test]
fn fresh_walker_previews_span_three_rows() {
    let app = App::new(grid1(), Progress::new());
    assert_eq!(app.current_pixel, NextPreview::Tri(Some(b()), Some(c()), Some(e())));
    assert_eq!(app.next_pixel, NextPreview::Tri(None, None, Some(f())));
}

#[test]
fn tick_promotes_next_to_current() {
    let mut app = App::new(grid1(), Progress::new());
    let promoted = app.next_pixel;
    app.tick();
    assert_eq!(app.current_pixel, promoted);
    assert!(app.ensure_current_on_screen);
    assert_eq!(app.progress, Progress::restore(2, 2));
}

#[test]
fn tick_grows_lines_in_lockstep() {
    let mut app = App::new(grid1(), Progress::new());
    app.tick();
    // Rows 0 and 1 are exhausted; only row 2 still grows.
    assert_eq!(app.lines, vec![vec![a(), b()], vec![c()], vec![d(), e(), f()]]);
    assert_eq!(app.next_pixel, NextPreview::Tri(None, None, None));
}

#[test]
fn tick_wraps_to_next_row_and_reseeds_current() {
    let mut app = App::new(grid1(), Progress::new());
    app.tick();
    app.tick();
    assert_eq!(app.progress, Progress::restore(3, 0));
    assert_eq!(app.current_pixel, NextPreview::Pixel(Some(g())));
    assert_eq!(
        app.lines,
        vec![vec![a(), b()], vec![c()], vec![d(), e(), f()], vec![g()]]
    );
    assert!(app.is_done());
}

#[test]
fn cursor_only_moves_forward() {
    let mut app = App::new(grid1(), Progress::new());
    let mut seen = vec![(app.progress.row, app.progress.col)];
    while !app.is_done() {
        app.tick();
        seen.push((app.progress.row, app.progress.col));
    }
    for pair in seen.windows(2) {
        assert!(pair[0] < pair[1], "cursor went from {:?} to {:?}", pair[0], pair[1]);
    }
}

#[test]
fn reset_matches_fresh_construction() {
    let mut app = App::new(grid1(), Progress::new());
    app.tick();
    app.tick();
    app.reset();
    let fresh = App::new(grid1(), Progress::new());
    assert_eq!(app.progress, fresh.progress);
    assert_eq!(app.lines, fresh.lines);
    // Previews reconstructed at the start cursor match the fresh walker's.
    let rebuilt = App::new(app.rows.clone(), Progress::new());
    assert_eq!(rebuilt.current_pixel, fresh.current_pixel);
    assert_eq!(rebuilt.next_pixel, fresh.next_pixel);
}

#[test]
fn reset_does_not_touch_the_grid() {
    let mut app = App::new(grid1(), Progress::new());
    app.tick();
    app.reset();
    assert_eq!(app.rows, grid1());
}

#[test]
fn steady_state_walker_duplicates_partial_row() {
    // From the boundary row on, the revealed lines are the first `row`
    // full rows plus a partial copy of row `row - 1`.
    let grid = vec![vec![a()], vec![b()], vec![c()], vec![d(), e()]];
    let app = App::new(grid, Progress::restore(3, 0));
    assert_eq!(app.lines, vec![vec![a()], vec![b()], vec![c()], vec![c()]]);
    assert_eq!(app.current_pixel, NextPreview::Pixel(None));
    assert_eq!(app.next_pixel, NextPreview::Pixel(Some(d())));
}

#[test]
fn last_cell_of_last_row_has_empty_lookahead() {
    let grid = vec![vec![a()], vec![b()], vec![c()], vec![d(), e()]];
    let app = App::new(grid, Progress::restore(3, 2));
    assert_eq!(app.current_pixel, NextPreview::Pixel(Some(e())));
    assert_eq!(app.next_pixel, NextPreview::Pixel(None));
    assert!(app.is_done());
}

#[test]
fn last_cell_in_staggered_region_has_all_none_lookahead() {
    let grid = vec![vec![a(), b()], vec![c()], vec![d()]];
    let app = App::new(grid, Progress::restore(2, 1));
    assert_eq!(app.next_pixel, NextPreview::Tri(None, None, None));
    assert!(app.is_done());
}

#[test]
fn walk_through_single_row_tail() {
    let grid = vec![vec![a()], vec![b()], vec![c()], vec![d(), e(), f(), g()]];
    let mut app = App::new(grid, Progress::restore(3, 1));
    assert_eq!(app.current_pixel, NextPreview::Pixel(Some(d())));
    assert_eq!(app.next_pixel, NextPreview::Pixel(Some(e())));
    assert!(!app.is_done());
    app.tick();
    assert_eq!(app.current_pixel, NextPreview::Pixel(Some(e())));
    assert_eq!(app.next_pixel, NextPreview::Pixel(Some(f())));
    // The partial last line grows by its own length as index into the
    // source row: it held one cell, so cell 1 of the source row joins it.
    assert_eq!(app.lines.last().unwrap(), &vec![c(), e()]);
    app.tick();
    assert!(app.is_done());
}

#[test]
fn full_walk_reveals_the_whole_grid() {
    let grid = vec![vec![a(), b()], vec![c()], vec![d(), e()], vec![f()], vec![g()]];
    let mut app = App::new(grid.clone(), Progress::new());
    let mut steps = 0;
    while !app.is_done() {
        app.tick();
        steps += 1;
        assert!(steps <= 64, "walk did not terminate");
    }
    assert_eq!(app.lines, grid);
}
