use ipp::color::separator_color;
use ipp::row_builder::BuildState;
use ipp::row_builder::PixelBuffer;
use ipp::row_builder::RowBuilder;
use ipp::ColorEntry;
use ipp::ColorMap;
use ipp::Rgb8;

fn rgb(r: u8, g: u8, b: u8) -> Rgb8 {
    Rgb8 { r, g, b }
}

fn red() -> Rgb8 {
    rgb(200, 0, 0)
}

fn blue() -> Rgb8 {
    rgb(0, 0, 200)
}

fn entry(full: &str, short: &str) -> ColorEntry {
    ColorEntry { full_name: full.to_owned(), one_char: short.to_owned() }
}

/// Builds a buffer from rows of characters: `.` is the separator, any
/// other character is looked up in `palette`.
fn buffer(palette: &[(char, Rgb8)], art: &[&str]) -> PixelBuffer {
    let height = art.len();
    let width = if height == 0 { 0 } else { art[0].len() };
    let mut pixels = Vec::new();
    for line in art {
        assert_eq!(line.len(), width);
        for ch in line.chars() {
            if ch == '.' {
                pixels.push(separator_color());
            } else {
                let color = palette.iter().find(|(c, _)| *c == ch).unwrap().1;
                pixels.push(color);
            }
        }
    }
    PixelBuffer::new(width, height, pixels)
}

fn registered(colors: &[(Rgb8, &str, &str)]) -> ColorMap {
    let mut map = ColorMap::new();
    for (color, full, short) in colors {
        map.add_entry(*color, entry(full, short));
    }
    map
}

fn complete_grid(state: BuildState) -> Vec<Vec<Rgb8>> {
    match state {
        BuildState::Complete(grid) => grid,
        BuildState::NewColor(c) => panic!("unexpected suspension on {:?}", c),
    }
}

#[test]
fn empty_image_yields_empty_grid() {
    let mut builder = RowBuilder::new(PixelBuffer::new(0, 0, Vec::new()));
    let mut map = ColorMap::new();
    let grid = complete_grid(builder.build(&mut map));
    assert!(grid.is_empty());
}

#[test]
fn all_separator_image_yields_empty_grid() {
    let img = buffer(&[], &["...", "...", "..."]);
    let mut builder = RowBuilder::new(img);
    let mut map = ColorMap::new();
    let grid = complete_grid(builder.build(&mut map));
    assert!(grid.is_empty());
}

#[test]
fn surrounded_block_is_one_cell() {
    // A 2x2 block of one registered color, fully surrounded by the
    // separator, is a single connected region: one row with one cell.
    let img = buffer(&[('R', red())], &["....", ".RR.", ".RR.", "...."]);
    let mut builder = RowBuilder::new(img);
    let mut map = registered(&[(red(), "Red", "R")]);
    let grid = complete_grid(builder.build(&mut map));
    assert_eq!(grid, vec![vec![red()]]);
}

#[test]
fn unknown_color_suspends_then_resumes() {
    let img = buffer(&[('R', red())], &["....", ".RR.", ".RR.", "...."]);
    let mut builder = RowBuilder::new(img);
    let mut map = ColorMap::new();
    let state = builder.build(&mut map);
    match state {
        BuildState::NewColor(c) => assert_eq!(c, red()),
        BuildState::Complete(_) => panic!("expected a suspension"),
    }
    let grid = complete_grid(builder.continue_build(entry("Red", "R"), &mut map));
    assert_eq!(grid, vec![vec![red()]]);
    assert!(map.has(red()));
    assert_eq!(map.full_name(red()).unwrap(), "Red");
    assert_eq!(map.one_char(red()).unwrap(), "R");
}

#[test]
fn separate_regions_in_one_scan_line_are_two_cells() {
    let img = buffer(&[('R', red()), ('B', blue())], &["R.B"]);
    let mut builder = RowBuilder::new(img);
    let mut map = registered(&[(red(), "Red", "R"), (blue(), "Blue", "B")]);
    let grid = complete_grid(builder.build(&mut map));
    assert_eq!(grid, vec![vec![red(), blue()]]);
}

#[test]
fn region_spanning_rows_counts_once() {
    // An L-shaped region is one connected blob: it is consumed whole on
    // first contact and contributes exactly one cell, and the scan line
    // that only held its tail yields no row at all.
    let img = buffer(&[('R', red())], &["R..", "RR."]);
    let mut builder = RowBuilder::new(img);
    let mut map = registered(&[(red(), "Red", "R")]);
    let grid = complete_grid(builder.build(&mut map));
    assert_eq!(grid, vec![vec![red()]]);
}

#[test]
fn blank_scan_lines_never_make_empty_rows() {
    let img = buffer(&[('R', red()), ('B', blue())], &["R..", "...", "..B"]);
    let mut builder = RowBuilder::new(img);
    let mut map = registered(&[(red(), "Red", "R"), (blue(), "Blue", "B")]);
    let grid = complete_grid(builder.build(&mut map));
    assert_eq!(grid, vec![vec![red()], vec![blue()]]);
    for row in &grid {
        assert!(!row.is_empty());
    }
}

#[test]
fn region_touching_every_edge_is_consumed() {
    let img = buffer(&[('R', red())], &["RRR", "R.R", "RRR"]);
    let mut builder = RowBuilder::new(img);
    let mut map = registered(&[(red(), "Red", "R")]);
    let grid = complete_grid(builder.build(&mut map));
    assert_eq!(grid, vec![vec![red()]]);
}

#[test]
fn suspensions_do_not_change_the_grid() {
    // The same image segmented twice: once with every color known up
    // front, once discovering both colors through suspensions. The grids
    // must be identical.
    let art = ["R.B", "R..", "..B"];
    let palette = [('R', red()), ('B', blue())];

    let mut builder = RowBuilder::new(buffer(&palette, &art));
    let mut known = registered(&[(red(), "Red", "R"), (blue(), "Blue", "B")]);
    let straight = complete_grid(builder.build(&mut known));

    let mut builder = RowBuilder::new(buffer(&palette, &art));
    let mut map = ColorMap::new();
    let mut state = builder.build(&mut map);
    let mut resumed = 0;
    let interrupted = loop {
        match state {
            BuildState::Complete(grid) => break grid,
            BuildState::NewColor(c) => {
                resumed += 1;
                let label = if c == red() { entry("Red", "R") } else { entry("Blue", "B") };
                state = builder.continue_build(label, &mut map);
            }
        }
    };
    assert_eq!(resumed, 2);
    assert_eq!(straight, interrupted);
}

#[test]
fn wide_image_keeps_scan_order() {
    let img = buffer(
        &[('R', red()), ('B', blue())],
        &["R.B.R", ".....", "B...B"],
    );
    let mut builder = RowBuilder::new(img);
    let mut map = registered(&[(red(), "Red", "R"), (blue(), "Blue", "B")]);
    let grid = complete_grid(builder.build(&mut map));
    assert_eq!(grid, vec![vec![red(), blue(), red()], vec![blue(), blue()]]);
}

#[test]
fn touching_blobs_of_different_colors_stay_separate() {
    // The fill consumes pixels of the seed's exact color only, so two
    // adjacent blobs of different colors are two cells.
    let img = buffer(&[('R', red()), ('B', blue())], &["RB"]);
    let mut builder = RowBuilder::new(img);
    let mut map = registered(&[(red(), "Red", "R"), (blue(), "Blue", "B")]);
    let grid = complete_grid(builder.build(&mut map));
    assert_eq!(grid, vec![vec![red(), blue()]]);
}

#[test]
fn diagonal_pixels_are_not_connected() {
    let img = buffer(&[('R', red())], &["R.", ".R"]);
    let mut builder = RowBuilder::new(img);
    let mut map = registered(&[(red(), "Red", "R")]);
    let grid = complete_grid(builder.build(&mut map));
    assert_eq!(grid, vec![vec![red()], vec![red()]]);
}
