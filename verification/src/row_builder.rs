//! Image segmentation: consuming a pixel buffer into rows of cell colors.
//!
//! Pixels are scanned in raster order. A pixel of the separator color is
//! skipped. A pixel whose color is registered is appended to the current
//! row and its whole connected region is repainted to the separator color
//! by a flood fill, so a region contributes exactly one cell. A pixel
//! whose color is unknown suspends the scan until the caller supplies
//! labels for it.

use vstd::prelude::*;
use crate::color::Rgb8;
use crate::color::separator_color;
use crate::color::spec_separator_color;
use crate::registry::ColorEntry;
use crate::registry::ColorMap;

verus! {

/// A rectangular pixel buffer, row-major, `width * height` pixels.
pub struct PixelBuffer {
    width: usize,
    height: usize,
    pixels: Vec<Rgb8>,
}

/// The flat index of the pixel at `(x, y)` in a row-major buffer.
pub open spec fn pix_index(w: nat, x: int, y: int) -> int {
    y * w + x
}

/// Whether `(x, y)` lies inside a `w` by `h` buffer.
pub open spec fn coord_in_bounds(w: nat, h: nat, x: int, y: int) -> bool {
    0 <= x < w && 0 <= y < h
}

proof fn lemma_row_major_bound(w: nat, h: nat, x: int, y: int)
    requires
        coord_in_bounds(w, h, x, y),
    ensures
        0 <= pix_index(w, x, y) < w * h,
{
    assert(0 <= y * w + x < w * h) by (nonlinear_arith)
        requires
            0 <= x < w,
            0 <= y < h,
    ;
}

impl View for PixelBuffer {
    type V = Seq<Rgb8>;

    closed spec fn view(&self) -> Seq<Rgb8> {
        self.pixels@
    }
}

impl PixelBuffer {
    pub closed spec fn spec_width(&self) -> nat {
        self.width as nat
    }

    pub closed spec fn spec_height(&self) -> nat {
        self.height as nat
    }

    /// The buffer is rectangular: it holds exactly `width * height` pixels.
    pub open spec fn wf(&self) -> bool {
        self@.len() == self.spec_width() * self.spec_height()
    }

    /// Wraps a row-major pixel vector as a `width` by `height` buffer.
    pub fn new(width: usize, height: usize, pixels: Vec<Rgb8>) -> (buf: PixelBuffer)
        requires
            pixels@.len() == width * height,
        ensures
            buf.wf(),
            buf@ == pixels@,
            buf.spec_width() == width,
            buf.spec_height() == height,
    {
        PixelBuffer { width, height, pixels }
    }

    /// The buffer width in pixels.
    pub fn width(&self) -> (w: usize)
        ensures
            w == self.spec_width(),
    {
        self.width
    }

    /// The buffer height in pixels.
    pub fn height(&self) -> (h: usize)
        ensures
            h == self.spec_height(),
    {
        self.height
    }

    /// The color of the pixel at `(x, y)`.
    pub fn pixel(&self, x: usize, y: usize) -> (p: Rgb8)
        requires
            self.wf(),
            x < self.spec_width(),
            y < self.spec_height(),
        ensures
            p == self@[pix_index(self.spec_width(), x as int, y as int)],
    {
        let _n = self.pixels.len();
        proof {
            lemma_row_major_bound(self.spec_width(), self.spec_height(), x as int, y as int);
        }
        self.pixels[y * self.width + x]
    }

    fn set_pixel(&mut self, x: usize, y: usize, p: Rgb8)
        requires
            old(self).wf(),
            x < old(self).spec_width(),
            y < old(self).spec_height(),
        ensures
            final(self).wf(),
            final(self).spec_width() == old(self).spec_width(),
            final(self).spec_height() == old(self).spec_height(),
            final(self)@ == old(self)@.update(
                pix_index(old(self).spec_width(), x as int, y as int),
                p,
            ),
    {
        let _n = self.pixels.len();
        proof {
            lemma_row_major_bound(self.spec_width(), self.spec_height(), x as int, y as int);
        }
        let i = y * self.width + x;
        self.pixels.set(i, p);
    }
}

/// How many pixels of the buffer are not the separator color.
pub open spec fn non_sep_count(img: Seq<Rgb8>) -> nat
    decreases img.len(),
{
    if img.len() == 0 {
        0
    } else {
        non_sep_count(img.drop_last()) + (if img.last() != spec_separator_color() {
            1nat
        } else {
            0nat
        })
    }
}

proof fn lemma_non_sep_update(img: Seq<Rgb8>, i: int)
    requires
        0 <= i < img.len(),
        img[i] != spec_separator_color(),
    ensures
        non_sep_count(img.update(i, spec_separator_color())) < non_sep_count(img),
    decreases img.len(),
{
    let img2 = img.update(i, spec_separator_color());
    if i == img.len() - 1 {
        assert(img2.drop_last() =~= img.drop_last());
    } else {
        assert(img2.drop_last() =~= img.drop_last().update(i, spec_separator_color()));
        lemma_non_sep_update(img.drop_last(), i);
    }
}

/// Whether every coordinate on the stack lies inside the buffer.
pub open spec fn stack_in_bounds(w: nat, h: nat, stack: Seq<(int, int)>) -> bool {
    forall|i: int| 0 <= i < stack.len() ==> coord_in_bounds(w, h, stack[i].0, stack[i].1)
}

/// The in-bounds 4-neighbors of `(x, y)`, in the order the fill visits
/// them: left, up, right, down.
pub open spec fn flood_neighbors(w: nat, h: nat, x: int, y: int) -> Seq<(int, int)> {
    (if x > 0 {
        seq![(x - 1, y)]
    } else {
        Seq::empty()
    }) + (if y > 0 {
        seq![(x, y - 1)]
    } else {
        Seq::empty()
    }) + (if x + 1 < w {
        seq![(x + 1, y)]
    } else {
        Seq::empty()
    }) + (if y + 1 < h {
        seq![(x, y + 1)]
    } else {
        Seq::empty()
    })
}

/// The buffer after the pending flood-fill work on `stack` for the
/// region color `target` has run: the top coordinate is popped; a pixel
/// of exactly that color is repainted to the separator color and its
/// in-bounds neighbors are pushed; any other pixel is dropped.
pub open spec fn spec_flood(
    img: Seq<Rgb8>,
    w: nat,
    h: nat,
    target: Rgb8,
    stack: Seq<(int, int)>,
) -> Seq<Rgb8>
    decreases non_sep_count(img), stack.len(),
        when img.len() == w * h && target != spec_separator_color() && stack_in_bounds(w, h, stack)
        via spec_flood_decreases
{
    if stack.len() == 0 {
        img
    } else {
        let x = stack.last().0;
        let y = stack.last().1;
        let rest = stack.drop_last();
        if img[pix_index(w, x, y)] != target {
            spec_flood(img, w, h, target, rest)
        } else {
            spec_flood(
                img.update(pix_index(w, x, y), spec_separator_color()),
                w,
                h,
                target,
                rest + flood_neighbors(w, h, x, y),
            )
        }
    }
}

#[via_fn]
proof fn spec_flood_decreases(
    img: Seq<Rgb8>,
    w: nat,
    h: nat,
    target: Rgb8,
    stack: Seq<(int, int)>,
) {
    if stack.len() > 0 {
        let x = stack.last().0;
        let y = stack.last().1;
        assert(coord_in_bounds(w, h, x, y));
        lemma_row_major_bound(w, h, x, y);
        if img[pix_index(w, x, y)] == target {
            lemma_non_sep_update(img, pix_index(w, x, y));
        }
    }
}

/// A flood fill never grows or shrinks the buffer.
pub proof fn lemma_flood_len(img: Seq<Rgb8>, w: nat, h: nat, target: Rgb8, stack: Seq<(int, int)>)
    requires
        img.len() == w * h,
        target != spec_separator_color(),
        stack_in_bounds(w, h, stack),
    ensures
        spec_flood(img, w, h, target, stack).len() == img.len(),
    decreases non_sep_count(img), stack.len(),
{
    if stack.len() > 0 {
        let x = stack.last().0;
        let y = stack.last().1;
        lemma_row_major_bound(w, h, x, y);
        if img[pix_index(w, x, y)] != target {
            lemma_flood_len(img, w, h, target, stack.drop_last());
        } else {
            let img2 = img.update(pix_index(w, x, y), spec_separator_color());
            lemma_non_sep_update(img, pix_index(w, x, y));
            lemma_flood_len(img2, w, h, target, stack.drop_last() + flood_neighbors(w, h, x, y));
        }
    }
}

/// A flood fill only repaints pixels to the separator color: every pixel
/// of the result is either unchanged or the separator.
pub proof fn lemma_flood_frame(
    img: Seq<Rgb8>,
    w: nat,
    h: nat,
    target: Rgb8,
    stack: Seq<(int, int)>,
)
    requires
        img.len() == w * h,
        target != spec_separator_color(),
        stack_in_bounds(w, h, stack),
    ensures
        forall|i: int|
            0 <= i < img.len() ==> spec_flood(img, w, h, target, stack)[i] == img[i] || spec_flood(
                img,
                w,
                h,
                target,
                stack,
            )[i] == spec_separator_color(),
    decreases non_sep_count(img), stack.len(),
{
    if stack.len() > 0 {
        let x = stack.last().0;
        let y = stack.last().1;
        lemma_row_major_bound(w, h, x, y);
        if img[pix_index(w, x, y)] != target {
            assert(spec_flood(img, w, h, target, stack) == spec_flood(
                img,
                w,
                h,
                target,
                stack.drop_last(),
            ));
            lemma_flood_frame(img, w, h, target, stack.drop_last());
            lemma_flood_len(img, w, h, target, stack.drop_last());
        } else {
            let img2 = img.update(pix_index(w, x, y), spec_separator_color());
            let stack2 = stack.drop_last() + flood_neighbors(w, h, x, y);
            lemma_non_sep_update(img, pix_index(w, x, y));
            assert(spec_flood(img, w, h, target, stack) == spec_flood(img2, w, h, target, stack2));
            lemma_flood_frame(img2, w, h, target, stack2);
            lemma_flood_len(img2, w, h, target, stack2);
            assert(forall|i: int|
                0 <= i < img.len() ==> img2[i] == img[i] || img2[i] == spec_separator_color());
        }
    }
}

/// After a flood fill, no coordinate that was on the stack still holds
/// the region color: each was either repainted to the separator or never
/// held it.
pub proof fn lemma_flood_stack_done(
    img: Seq<Rgb8>,
    w: nat,
    h: nat,
    target: Rgb8,
    stack: Seq<(int, int)>,
)
    requires
        img.len() == w * h,
        target != spec_separator_color(),
        stack_in_bounds(w, h, stack),
    ensures
        forall|j: int|
            0 <= j < stack.len() ==> spec_flood(img, w, h, target, stack)[pix_index(
                w,
                stack[j].0,
                stack[j].1,
            )] != target,
    decreases non_sep_count(img), stack.len(),
{
    if stack.len() > 0 {
        let x = stack.last().0;
        let y = stack.last().1;
        let rest = stack.drop_last();
        lemma_row_major_bound(w, h, x, y);
        if img[pix_index(w, x, y)] != target {
            assert(spec_flood(img, w, h, target, stack) == spec_flood(img, w, h, target, rest));
            lemma_flood_stack_done(img, w, h, target, rest);
            lemma_flood_frame(img, w, h, target, rest);
            lemma_flood_len(img, w, h, target, rest);
            assert(forall|j: int| 0 <= j < rest.len() ==> rest[j] == stack[j]);
            assert(spec_flood(img, w, h, target, rest)[pix_index(w, x, y)] != target);
        } else {
            let img2 = img.update(pix_index(w, x, y), spec_separator_color());
            let stack2 = rest + flood_neighbors(w, h, x, y);
            lemma_non_sep_update(img, pix_index(w, x, y));
            assert(spec_flood(img, w, h, target, stack) == spec_flood(img2, w, h, target, stack2));
            lemma_flood_stack_done(img2, w, h, target, stack2);
            lemma_flood_frame(img2, w, h, target, stack2);
            lemma_flood_len(img2, w, h, target, stack2);
            assert(forall|j: int| 0 <= j < rest.len() ==> rest[j] == stack[j] && stack2[j]
                == stack[j]);
            assert(spec_flood(img2, w, h, target, stack2)[pix_index(w, x, y)] == img2[pix_index(
                w,
                x,
                y,
            )] || spec_flood(img2, w, h, target, stack2)[pix_index(w, x, y)]
                == spec_separator_color());
        }
    }
}

/// The view of an executable coordinate stack.
spec fn coords_view(s: Seq<(usize, usize)>) -> Seq<(int, int)> {
    Seq::new(s.len(), |i: int| (s[i].0 as int, s[i].1 as int))
}

/// Repaints the whole connected region of exactly the color found at
/// `(x, y)` to the separator color, iteratively, with an explicit work
/// stack.
fn flood_fill(img: &mut PixelBuffer, x: usize, y: usize)
    requires
        old(img).wf(),
        x < old(img).spec_width(),
        y < old(img).spec_height(),
        old(img)@[pix_index(old(img).spec_width(), x as int, y as int)]
            != spec_separator_color(),
    ensures
        final(img).wf(),
        final(img).spec_width() == old(img).spec_width(),
        final(img).spec_height() == old(img).spec_height(),
        final(img)@ == spec_flood(
            old(img)@,
            old(img).spec_width(),
            old(img).spec_height(),
            old(img)@[pix_index(old(img).spec_width(), x as int, y as int)],
            seq![(x as int, y as int)],
        ),
{
    let ghost w = img.spec_width();
    let ghost h = img.spec_height();
    let ghost img0 = img@;
    let target = img.pixel(x, y);
    let mut stack: Vec<(usize, usize)> = Vec::new();
    stack.push((x, y));
    proof {
        assert(coords_view(stack@) =~= seq![(x as int, y as int)]);
    }
    while stack.len() > 0
        invariant
            img.wf(),
            img.spec_width() == w,
            img.spec_height() == h,
            img0.len() == w * h,
            target != spec_separator_color(),
            forall|i: int|
                0 <= i < stack@.len() ==> stack@[i].0 < w && stack@[i].1 < h,
            stack_in_bounds(w, h, coords_view(stack@)),
            spec_flood(img@, w, h, target, coords_view(stack@)) == spec_flood(
                img0,
                w,
                h,
                target,
                seq![(x as int, y as int)],
            ),
        decreases non_sep_count(img@), stack@.len(),
    {
        let ghost pre_img = img@;
        let ghost pre_stack = coords_view(stack@);
        let top = stack.pop().unwrap();
        let cx = top.0;
        let cy = top.1;
        proof {
            assert(coords_view(stack@) =~= pre_stack.drop_last());
            assert(pre_stack.last() == (cx as int, cy as int));
            lemma_row_major_bound(w, h, cx as int, cy as int);
        }
        let p = img.pixel(cx, cy);
        if p != target {
        } else {
            img.set_pixel(cx, cy, separator_color());
            proof {
                lemma_non_sep_update(pre_img, pix_index(w, cx as int, cy as int));
            }
            if cx > 0 {
                stack.push((cx - 1, cy));
            }
            if cy > 0 {
                stack.push((cx, cy - 1));
            }
            if cx + 1 < img.width() {
                stack.push((cx + 1, cy));
            }
            if cy + 1 < img.height() {
                stack.push((cx, cy + 1));
            }
            proof {
                assert(coords_view(stack@) =~= pre_stack.drop_last() + flood_neighbors(
                    w,
                    h,
                    cx as int,
                    cy as int,
                ));
            }
        }
    }
    proof {
        assert(coords_view(stack@) =~= Seq::<(int, int)>::empty());
    }
}

} // verus!


verus! {

/// The mathematical view of a grid: each row as a sequence of colors.
pub open spec fn view_grid(rows: Seq<Vec<Rgb8>>) -> Seq<Seq<Rgb8>> {
    Seq::new(rows.len(), |i: int| rows[i]@)
}

/// No row of the grid is empty.
pub open spec fn rows_nonempty(rows: Seq<Seq<Rgb8>>) -> bool {
    forall|i: int| 0 <= i < rows.len() ==> rows[i].len() > 0
}

/// The model of an in-progress segmentation: the remaining pixels, the
/// finished rows, the row being collected, and the scan position.
#[verifier::ext_equal]
pub ghost struct SegState {
    pub img: Seq<Rgb8>,
    pub rows: Seq<Seq<Rgb8>>,
    pub current: Seq<Rgb8>,
    pub x: int,
    pub y: int,
}

/// How a segmentation run ends: either the whole buffer was scanned, or
/// the scan stopped on a color absent from the registry.
#[verifier::ext_equal]
pub ghost enum SegResult {
    Complete { s: SegState },
    NewColor { s: SegState, color: Rgb8 },
}

/// The scan position lies inside (or just past) a `w` by `h` buffer that
/// the state's image fills exactly.
pub open spec fn state_wf(w: nat, h: nat, s: SegState) -> bool {
    &&& s.img.len() == w * h
    &&& 0 <= s.x <= w
    &&& 0 <= s.y <= h
}

/// Every pixel strictly before the scan position, in raster order, has
/// already been repainted to the separator color.
pub open spec fn prefix_consumed(w: nat, h: nat, s: SegState) -> bool {
    forall|x: int, y: int|
        coord_in_bounds(w, h, x, y) && (y < s.y || (y == s.y && x < s.x)) ==> s.img[pix_index(
            w,
            x,
            y,
        )] == spec_separator_color()
}

/// Runs the scan from state `s` against the set `reg` of registered
/// colors, one pixel or one line end per step, until the buffer is
/// exhausted or an unregistered color suspends it.
pub open spec fn seg_run(w: nat, h: nat, reg: Set<Rgb8>, s: SegState) -> SegResult
    decreases h - s.y, w - s.x + 1,
        when state_wf(w, h, s)
        via seg_run_decreases
{
    if s.y >= h {
        SegResult::Complete { s }
    } else if s.x >= w {
        seg_run(
            w,
            h,
            reg,
            SegState {
                img: s.img,
                rows: if s.current.len() > 0 {
                    s.rows.push(s.current)
                } else {
                    s.rows
                },
                current: Seq::empty(),
                x: 0,
                y: s.y + 1,
            },
        )
    } else {
        let p = s.img[pix_index(w, s.x, s.y)];
        if p == spec_separator_color() {
            seg_run(w, h, reg, SegState { x: s.x + 1, ..s })
        } else if !reg.contains(p) {
            SegResult::NewColor { s, color: p }
        } else {
            seg_run(
                w,
                h,
                reg,
                SegState {
                    img: spec_flood(s.img, w, h, p, seq![(s.x, s.y)]),
                    rows: s.rows,
                    current: s.current.push(p),
                    x: s.x + 1,
                    y: s.y,
                },
            )
        }
    }
}

#[via_fn]
proof fn seg_run_decreases(w: nat, h: nat, reg: Set<Rgb8>, s: SegState) {
    if s.y < h && s.x < w {
        lemma_row_major_bound(w, h, s.x, s.y);
        let p = s.img[pix_index(w, s.x, s.y)];
        if p != spec_separator_color() && reg.contains(p) {
            lemma_flood_len(s.img, w, h, p, seq![(s.x, s.y)]);
        }
    }
}

} // verus!

verus! {

/// How a call to `build` ended: the finished grid, or the unregistered
/// color the scan stopped on.
pub enum BuildState {
    Complete(Vec<Vec<Rgb8>>),
    NewColor(Rgb8),
}

pub(crate) fn clone_row(row: &Vec<Rgb8>) -> (out: Vec<Rgb8>)
    ensures
        out@ == row@,
{
    let mut out: Vec<Rgb8> = Vec::new();
    let mut i: usize = 0;
    while i < row.len()
        invariant
            i <= row@.len(),
            out@ == row@.take(i as int),
        decreases row@.len() - i,
    {
        out.push(row[i]);
        i = i + 1;
        proof {
            assert(out@ =~= row@.take(i as int));
        }
    }
    proof {
        assert(row@.take(row@.len() as int) =~= row@);
    }
    out
}

fn clone_grid(grid: &Vec<Vec<Rgb8>>) -> (out: Vec<Vec<Rgb8>>)
    ensures
        view_grid(out@) == view_grid(grid@),
{
    let mut out: Vec<Vec<Rgb8>> = Vec::new();
    let mut i: usize = 0;
    while i < grid.len()
        invariant
            i <= grid@.len(),
            out@.len() == i,
            forall|j: int| 0 <= j < i ==> out@[j]@ == grid@[j]@,
        decreases grid@.len() - i,
    {
        out.push(clone_row(&grid[i]));
        i = i + 1;
    }
    proof {
        assert(view_grid(out@) =~= view_grid(grid@));
    }
    out
}

/// A resumable raster scan over a pixel buffer, collecting one grid row
/// per scan line that contributed at least one cell.
pub struct RowBuilder {
    img: PixelBuffer,
    rows: Vec<Vec<Rgb8>>,
    current_row: Vec<Rgb8>,
    x: usize,
    y: usize,
}

impl RowBuilder {
    /// The abstract segmentation state this builder is in.
    pub closed spec fn state(&self) -> SegState {
        SegState {
            img: self.img@,
            rows: view_grid(self.rows@),
            current: self.current_row@,
            x: self.x as int,
            y: self.y as int,
        }
    }

    pub closed spec fn spec_width(&self) -> nat {
        self.img.spec_width()
    }

    pub closed spec fn spec_height(&self) -> nat {
        self.img.spec_height()
    }

    /// The builder's invariant: the buffer is rectangular, the scan
    /// position is inside or just past it, every finished row is
    /// non-empty, and everything before the scan position has been
    /// consumed.
    pub closed spec fn wf(&self) -> bool {
        &&& self.img.wf()
        &&& state_wf(self.spec_width(), self.spec_height(), self.state())
        &&& rows_nonempty(self.state().rows)
        &&& prefix_consumed(self.spec_width(), self.spec_height(), self.state())
    }

    /// A fresh scan over `img`, starting at the top-left pixel.
    pub fn new(img: PixelBuffer) -> (b: RowBuilder)
        requires
            img.wf(),
        ensures
            b.wf(),
            b.spec_width() == img.spec_width(),
            b.spec_height() == img.spec_height(),
            b.state() == (SegState {
                img: img@,
                rows: Seq::<Seq<Rgb8>>::empty(),
                current: Seq::<Rgb8>::empty(),
                x: 0,
                y: 0,
            }),
    {
        let b = RowBuilder { img, rows: Vec::new(), current_row: Vec::new(), x: 0, y: 0 };
        proof {
            assert(view_grid(b.rows@) =~= Seq::<Seq<Rgb8>>::empty());
        }
        b
    }
}

} // verus!

verus! {

impl RowBuilder {
    /// Scans from the saved position until the buffer is exhausted or an
    /// unregistered color is met. On `Complete` the finished grid is
    /// returned: its rows are exactly what the abstract run produces, no
    /// row is empty, and every pixel of the buffer has been consumed. On
    /// `NewColor` nothing has been recorded for the offending pixel: the
    /// builder still stands on it, so `continue_build` can resume there.
    pub fn build(&mut self, color_map: &mut ColorMap) -> (r: BuildState)
        requires
            old(self).wf(),
        ensures
            final(self).wf(),
            final(self).spec_width() == old(self).spec_width(),
            final(self).spec_height() == old(self).spec_height(),
            *final(color_map) == *old(color_map),
            match seg_run(
                old(self).spec_width(),
                old(self).spec_height(),
                old(color_map)@.dom(),
                old(self).state(),
            ) {
                SegResult::Complete { s } => {
                    &&& r matches BuildState::Complete(g) && view_grid(g@) == s.rows
                    &&& final(self).state() == s
                },
                SegResult::NewColor { s, color } => {
                    &&& r matches BuildState::NewColor(c) && c == color
                    &&& final(self).state() == s
                },
            },
            r matches BuildState::NewColor(c) ==> {
                &&& final(self).state().x < final(self).spec_width()
                &&& final(self).state().y < final(self).spec_height()
                &&& final(self).state().img[pix_index(
                    final(self).spec_width(),
                    final(self).state().x,
                    final(self).state().y,
                )] == c
                &&& !old(color_map)@.contains_key(c)
            },
            r matches BuildState::Complete(g) ==> {
                &&& rows_nonempty(view_grid(g@))
                &&& forall|x: int, y: int|
                    coord_in_bounds(old(self).spec_width(), old(self).spec_height(), x, y)
                        ==> final(self).state().img[pix_index(old(self).spec_width(), x, y)]
                        == spec_separator_color()
                &&& grid_colors_in(old(self).state().rows, old(color_map)@.dom())
                    && row_colors_in(old(self).state().current, old(color_map)@.dom())
                    ==> grid_colors_in(view_grid(g@), old(color_map)@.dom())
            },
    {
        let ghost w = self.spec_width();
        let ghost h = self.spec_height();
        let ghost reg = color_map@.dom();
        let ghost s0 = self.state();
        let width = self.img.width();
        let height = self.img.height();
        while self.y < height
            invariant
                self.wf(),
                self.spec_width() == w,
                self.spec_height() == h,
                width == w,
                height == h,
                w == old(self).spec_width(),
                h == old(self).spec_height(),
                s0 == old(self).state(),
                state_wf(w, h, s0),
                *color_map == *old(color_map),
                reg == old(color_map)@.dom(),
                seg_run(w, h, reg, self.state()) == seg_run(w, h, reg, s0),
            decreases h - self.y, w - self.x + 1,
        {
            let ghost s_pre = self.state();
            if self.x >= width {
                if self.current_row.len() > 0 {
                    let mut row: Vec<Rgb8> = Vec::new();
                    core::mem::swap(&mut row, &mut self.current_row);
                    self.rows.push(row);
                    proof {
                        assert(view_grid(self.rows@) =~= s_pre.rows.push(s_pre.current));
                    }
                }
                self.x = 0;
                self.y = self.y + 1;
                proof {
                    assert(self.state() =~= SegState {
                        img: s_pre.img,
                        rows: if s_pre.current.len() > 0 {
                            s_pre.rows.push(s_pre.current)
                        } else {
                            s_pre.rows
                        },
                        current: Seq::empty(),
                        x: 0,
                        y: s_pre.y + 1,
                    });
                    assert(seg_run(w, h, reg, s_pre) == seg_run(w, h, reg, self.state()));
                    assert(prefix_consumed(w, h, self.state()));
                }
            } else {
                let p = self.img.pixel(self.x, self.y);
                if p == separator_color() {
                    self.x = self.x + 1;
                    proof {
                        assert(self.state() =~= SegState { x: s_pre.x + 1, ..s_pre });
                        assert(seg_run(w, h, reg, s_pre) == seg_run(w, h, reg, self.state()));
                        assert(prefix_consumed(w, h, self.state()));
                    }
                } else if !color_map.has(p) {
                    proof {
                        assert(seg_run(w, h, reg, s_pre) == (SegResult::NewColor {
                            s: s_pre,
                            color: p,
                        }));
                    }
                    return BuildState::NewColor(p);
                } else {
                    self.current_row.push(p);
                    flood_fill(&mut self.img, self.x, self.y);
                    self.x = self.x + 1;
                    proof {
                        lemma_flood_len(s_pre.img, w, h, p, seq![(s_pre.x, s_pre.y)]);
                        lemma_flood_frame(s_pre.img, w, h, p, seq![(s_pre.x, s_pre.y)]);
                        lemma_flood_stack_done(s_pre.img, w, h, p, seq![(s_pre.x, s_pre.y)]);
                        assert(self.state() =~= SegState {
                            img: spec_flood(s_pre.img, w, h, p, seq![(s_pre.x, s_pre.y)]),
                            rows: s_pre.rows,
                            current: s_pre.current.push(p),
                            x: s_pre.x + 1,
                            y: s_pre.y,
                        });
                        assert(seg_run(w, h, reg, s_pre) == seg_run(w, h, reg, self.state()));
                        assert forall|a: int, b: int|
                            coord_in_bounds(w, h, a, b) && (b < self.state().y || (b
                                == self.state().y && a < self.state().x)) implies self.state().img[
                            pix_index(w, a, b)] == spec_separator_color() by {
                            lemma_row_major_bound(w, h, a, b);
                            if b == s_pre.y && a == s_pre.x {
                                assert(self.state().img[pix_index(w, a, b)]
                                    == spec_separator_color());
                            } else {
                                assert(coord_in_bounds(w, h, a, b) && (b < s_pre.y || (b == s_pre.y
                                    && a < s_pre.x)));
                                assert(s_pre.img[pix_index(w, a, b)] == spec_separator_color());
                            }
                        };
                        assert(prefix_consumed(w, h, self.state()));
                    }
                }
            }
        }
        proof {
            assert(seg_run(w, h, reg, self.state()) == (SegResult::Complete { s: self.state() }));
            if grid_colors_in(s0.rows, reg) && row_colors_in(s0.current, reg) {
                lemma_complete_colors_registered(w, h, reg, s0);
            }
        }
        let g = clone_grid(&self.rows);
        BuildState::Complete(g)
    }
}

} // verus!

verus! {

impl RowBuilder {
    /// Registers the label pair for the color of the pixel the scan is
    /// suspended on, then resumes scanning from exactly that pixel.
    pub fn continue_build(&mut self, entry: ColorEntry, color_map: &mut ColorMap) -> (r:
        BuildState)
        requires
            old(self).wf(),
            old(color_map).wf(),
            old(self).state().x < old(self).spec_width(),
            old(self).state().y < old(self).spec_height(),
        ensures
            final(self).wf(),
            final(self).spec_width() == old(self).spec_width(),
            final(self).spec_height() == old(self).spec_height(),
            final(color_map).wf(),
            final(color_map)@ == old(color_map)@.insert(
                old(self).state().img[pix_index(
                    old(self).spec_width(),
                    old(self).state().x,
                    old(self).state().y,
                )],
                (entry.full_name@, entry.one_char@),
            ),
            match seg_run(
                old(self).spec_width(),
                old(self).spec_height(),
                old(color_map)@.dom().insert(
                    old(self).state().img[pix_index(
                        old(self).spec_width(),
                        old(self).state().x,
                        old(self).state().y,
                    )],
                ),
                old(self).state(),
            ) {
                SegResult::Complete { s } => {
                    &&& r matches BuildState::Complete(g) && view_grid(g@) == s.rows
                    &&& final(self).state() == s
                },
                SegResult::NewColor { s, color } => {
                    &&& r matches BuildState::NewColor(c) && c == color
                    &&& final(self).state() == s
                },
            },
            r matches BuildState::NewColor(c) ==> {
                &&& final(self).state().x < final(self).spec_width()
                &&& final(self).state().y < final(self).spec_height()
                &&& final(self).state().img[pix_index(
                    final(self).spec_width(),
                    final(self).state().x,
                    final(self).state().y,
                )] == c
            },
            r matches BuildState::Complete(g) ==> {
                &&& rows_nonempty(view_grid(g@))
                &&& forall|x: int, y: int|
                    coord_in_bounds(old(self).spec_width(), old(self).spec_height(), x, y)
                        ==> final(self).state().img[pix_index(old(self).spec_width(), x, y)]
                        == spec_separator_color()
                &&& grid_colors_in(old(self).state().rows, final(color_map)@.dom())
                    && row_colors_in(old(self).state().current, final(color_map)@.dom())
                    ==> grid_colors_in(view_grid(g@), final(color_map)@.dom())
            },
    {
        let suspended = self.img.pixel(self.x, self.y);
        color_map.add_entry(suspended, entry);
        proof {
            assert(color_map@.dom() =~= old(color_map)@.dom().insert(suspended));
        }
        self.build(color_map)
    }
}

/// Widening the registry cannot change a run that already completes:
/// every color the run meets is registered either way, so the same grid
/// comes out. Together with `lemma_seg_run_resume` this says the final
/// grid does not depend on how often the scan was suspended and resumed.
pub proof fn lemma_seg_run_registry_extends(
    w: nat,
    h: nat,
    reg1: Set<Rgb8>,
    reg2: Set<Rgb8>,
    s: SegState,
)
    requires
        state_wf(w, h, s),
        reg1.subset_of(reg2),
        seg_run(w, h, reg1, s) is Complete,
    ensures
        seg_run(w, h, reg2, s) == seg_run(w, h, reg1, s),
    decreases h - s.y, w - s.x + 1,
{
    if s.y >= h {
    } else if s.x >= w {
        let s2 = SegState {
            img: s.img,
            rows: if s.current.len() > 0 {
                s.rows.push(s.current)
            } else {
                s.rows
            },
            current: Seq::empty(),
            x: 0,
            y: s.y + 1,
        };
        lemma_seg_run_registry_extends(w, h, reg1, reg2, s2);
    } else {
        lemma_row_major_bound(w, h, s.x, s.y);
        let p = s.img[pix_index(w, s.x, s.y)];
        if p == spec_separator_color() {
            lemma_seg_run_registry_extends(w, h, reg1, reg2, SegState { x: s.x + 1, ..s });
        } else {
            assert(reg1.contains(p));
            lemma_flood_len(s.img, w, h, p, seq![(s.x, s.y)]);
            let s2 = SegState {
                img: spec_flood(s.img, w, h, p, seq![(s.x, s.y)]),
                rows: s.rows,
                current: s.current.push(p),
                x: s.x + 1,
                y: s.y,
            };
            lemma_seg_run_registry_extends(w, h, reg1, reg2, s2);
        }
    }
}

/// A run with a wider registry passes unchanged through any state where
/// a narrower run suspends: both runs take identical steps up to the
/// suspension point, so resuming there with the wider registry yields
/// exactly what a fresh run with the wider registry yields.
pub proof fn lemma_seg_run_resume(w: nat, h: nat, reg1: Set<Rgb8>, reg2: Set<Rgb8>, s: SegState)
    requires
        state_wf(w, h, s),
        reg1.subset_of(reg2),
        seg_run(w, h, reg1, s) is NewColor,
    ensures
        seg_run(w, h, reg2, s) == seg_run(w, h, reg2, seg_run(w, h, reg1, s)->NewColor_s),
    decreases h - s.y, w - s.x + 1,
{
    if s.y >= h {
    } else if s.x >= w {
        let s2 = SegState {
            img: s.img,
            rows: if s.current.len() > 0 {
                s.rows.push(s.current)
            } else {
                s.rows
            },
            current: Seq::empty(),
            x: 0,
            y: s.y + 1,
        };
        lemma_seg_run_resume(w, h, reg1, reg2, s2);
    } else {
        lemma_row_major_bound(w, h, s.x, s.y);
        let p = s.img[pix_index(w, s.x, s.y)];
        if p == spec_separator_color() {
            lemma_seg_run_resume(w, h, reg1, reg2, SegState { x: s.x + 1, ..s });
        } else if !reg1.contains(p) {
        } else {
            lemma_flood_len(s.img, w, h, p, seq![(s.x, s.y)]);
            let s2 = SegState {
                img: spec_flood(s.img, w, h, p, seq![(s.x, s.y)]),
                rows: s.rows,
                current: s.current.push(p),
                x: s.x + 1,
                y: s.y,
            };
            lemma_seg_run_resume(w, h, reg1, reg2, s2);
        }
    }
}

} // verus!

verus! {

/// Whether every color of the row lies in `reg`.
pub open spec fn row_colors_in(row: Seq<Rgb8>, reg: Set<Rgb8>) -> bool {
    forall|i: int| 0 <= i < row.len() ==> reg.contains(#[trigger] row[i])
}

/// Whether every color of every row lies in `reg`.
pub open spec fn grid_colors_in(rows: Seq<Seq<Rgb8>>, reg: Set<Rgb8>) -> bool {
    forall|i: int| 0 <= i < rows.len() ==> row_colors_in(#[trigger] rows[i], reg)
}

/// A cell only ever enters a row at the moment its color is found in the
/// registry, so a completed grid holds registered colors alone.
pub proof fn lemma_complete_colors_registered(w: nat, h: nat, reg: Set<Rgb8>, s: SegState)
    requires
        state_wf(w, h, s),
        grid_colors_in(s.rows, reg),
        row_colors_in(s.current, reg),
        seg_run(w, h, reg, s) is Complete,
    ensures
        grid_colors_in(seg_run(w, h, reg, s)->Complete_s.rows, reg),
    decreases h - s.y, w - s.x + 1,
{
    if s.y >= h {
    } else if s.x >= w {
        let s2 = SegState {
            img: s.img,
            rows: if s.current.len() > 0 {
                s.rows.push(s.current)
            } else {
                s.rows
            },
            current: Seq::empty(),
            x: 0,
            y: s.y + 1,
        };
        assert(grid_colors_in(s2.rows, reg));
        lemma_complete_colors_registered(w, h, reg, s2);
    } else {
        lemma_row_major_bound(w, h, s.x, s.y);
        let p = s.img[pix_index(w, s.x, s.y)];
        if p == spec_separator_color() {
            lemma_complete_colors_registered(w, h, reg, SegState { x: s.x + 1, ..s });
        } else {
            assert(reg.contains(p));
            lemma_flood_len(s.img, w, h, p, seq![(s.x, s.y)]);
            let s2 = SegState {
                img: spec_flood(s.img, w, h, p, seq![(s.x, s.y)]),
                rows: s.rows,
                current: s.current.push(p),
                x: s.x + 1,
                y: s.y,
            };
            lemma_complete_colors_registered(w, h, reg, s2);
        }
    }
}

} // verus!

verus! {

/// A flood fill touches nothing outside the region's color: any pixel it
/// changed held exactly the target color before.
pub proof fn lemma_flood_only_target(
    img: Seq<Rgb8>,
    w: nat,
    h: nat,
    target: Rgb8,
    stack: Seq<(int, int)>,
)
    requires
        img.len() == w * h,
        target != spec_separator_color(),
        stack_in_bounds(w, h, stack),
    ensures
        forall|i: int|
            0 <= i < img.len() && spec_flood(img, w, h, target, stack)[i] != img[i] ==> img[i]
                == target,
    decreases non_sep_count(img), stack.len(),
{
    if stack.len() > 0 {
        let x = stack.last().0;
        let y = stack.last().1;
        let rest = stack.drop_last();
        lemma_row_major_bound(w, h, x, y);
        if img[pix_index(w, x, y)] != target {
            assert(spec_flood(img, w, h, target, stack) == spec_flood(img, w, h, target, rest));
            lemma_flood_only_target(img, w, h, target, rest);
            lemma_flood_len(img, w, h, target, rest);
        } else {
            let img2 = img.update(pix_index(w, x, y), spec_separator_color());
            let stack2 = rest + flood_neighbors(w, h, x, y);
            lemma_non_sep_update(img, pix_index(w, x, y));
            assert(spec_flood(img, w, h, target, stack) == spec_flood(img2, w, h, target, stack2));
            lemma_flood_only_target(img2, w, h, target, stack2);
            lemma_flood_len(img2, w, h, target, stack2);
            assert forall|i: int|
                0 <= i < img.len() && spec_flood(img, w, h, target, stack)[i]
                    != img[i] implies img[i] == target by {
                if i != pix_index(w, x, y) {
                    assert(img2[i] == img[i]);
                    assert(spec_flood(img2, w, h, target, stack2)[i] != img2[i]);
                }
            }
        }
    }
}

} // verus!

verus! {

/// Whether `(a, b)` appears on the work stack.
spec fn on_stack(stack: Seq<(int, int)>, a: int, b: int) -> bool {
    exists|j: int| 0 <= j < stack.len() && stack[j] == (a, b)
}

/// Whether the pixel at `(a, b)` was consumed: the original buffer held
/// the region color there and the current one holds the separator.
pub open spec fn repainted(
    img0: Seq<Rgb8>,
    img: Seq<Rgb8>,
    w: nat,
    target: Rgb8,
    a: int,
    b: int,
) -> bool {
    img0[pix_index(w, a, b)] == target && img[pix_index(w, a, b)] == spec_separator_color()
}

/// Whether `(a, b)` holds no more work for the fill: it is outside the
/// buffer, or does not hold the region color, or is pending on the stack.
spec fn neighbor_settled(
    img: Seq<Rgb8>,
    w: nat,
    h: nat,
    target: Rgb8,
    stack: Seq<(int, int)>,
    a: int,
    b: int,
) -> bool {
    !coord_in_bounds(w, h, a, b) || img[pix_index(w, a, b)] != target || on_stack(stack, a, b)
}

/// Every neighbor of every consumed pixel is settled: consumed already,
/// of another color, or still pending on the stack.
spec fn closure_pending(
    img0: Seq<Rgb8>,
    img: Seq<Rgb8>,
    w: nat,
    h: nat,
    target: Rgb8,
    stack: Seq<(int, int)>,
) -> bool {
    forall|a: int, b: int|
        coord_in_bounds(w, h, a, b) && #[trigger] repainted(img0, img, w, target, a, b)
            ==> neighbor_settled(img, w, h, target, stack, a - 1, b) && neighbor_settled(
            img,
            w,
            h,
            target,
            stack,
            a,
            b - 1,
        ) && neighbor_settled(img, w, h, target, stack, a + 1, b) && neighbor_settled(
            img,
            w,
            h,
            target,
            stack,
            a,
            b + 1,
        )
}

/// Whether no pixel of the region color stands at `(a, b)`.
pub open spec fn no_target_at(
    img: Seq<Rgb8>,
    w: nat,
    h: nat,
    target: Rgb8,
    a: int,
    b: int,
) -> bool {
    !coord_in_bounds(w, h, a, b) || img[pix_index(w, a, b)] != target
}

/// The consumed set is closed under 4-adjacency within the region color:
/// no consumed pixel still borders a pixel of that color.
pub open spec fn region_closed(
    img0: Seq<Rgb8>,
    img: Seq<Rgb8>,
    w: nat,
    h: nat,
    target: Rgb8,
) -> bool {
    forall|a: int, b: int|
        coord_in_bounds(w, h, a, b) && #[trigger] repainted(img0, img, w, target, a, b)
            ==> no_target_at(img, w, h, target, a - 1, b) && no_target_at(
            img,
            w,
            h,
            target,
            a,
            b - 1,
        ) && no_target_at(img, w, h, target, a + 1, b) && no_target_at(img, w, h, target, a, b + 1)
}

proof fn lemma_neighbors_on_stack(w: nat, h: nat, x: int, y: int, rest: Seq<(int, int)>)
    requires
        coord_in_bounds(w, h, x, y),
    ensures
        x > 0 ==> on_stack(rest + flood_neighbors(w, h, x, y), x - 1, y),
        y > 0 ==> on_stack(rest + flood_neighbors(w, h, x, y), x, y - 1),
        x + 1 < w ==> on_stack(rest + flood_neighbors(w, h, x, y), x + 1, y),
        y + 1 < h ==> on_stack(rest + flood_neighbors(w, h, x, y), x, y + 1),
{
    let stack2 = rest + flood_neighbors(w, h, x, y);
    let left: int = if x > 0 { 1 } else { 0 };
    let up: int = if y > 0 { 1 } else { 0 };
    let right: int = if x + 1 < w { 1 } else { 0 };
    if x > 0 {
        assert(stack2[rest.len() as int] == (x - 1, y));
    }
    if y > 0 {
        assert(stack2[rest.len() + left] == (x, y - 1));
    }
    if x + 1 < w {
        assert(stack2[rest.len() + left + up] == (x + 1, y));
    }
    if y + 1 < h {
        assert(stack2[rest.len() + left + up + right] == (x, y + 1));
    }
}

proof fn lemma_flood_closure_step(
    img0: Seq<Rgb8>,
    img: Seq<Rgb8>,
    w: nat,
    h: nat,
    target: Rgb8,
    stack: Seq<(int, int)>,
)
    requires
        img0.len() == w * h,
        img.len() == w * h,
        target != spec_separator_color(),
        stack_in_bounds(w, h, stack),
        forall|i: int|
            0 <= i < img.len() ==> img[i] == img0[i] || img[i] == spec_separator_color(),
        closure_pending(img0, img, w, h, target, stack),
    ensures
        region_closed(img0, spec_flood(img, w, h, target, stack), w, h, target),
    decreases non_sep_count(img), stack.len(),
{
    if stack.len() == 0 {
        assert forall|a: int, b: int|
            coord_in_bounds(w, h, a, b) && #[trigger] repainted(
                img0,
                img,
                w,
                target,
                a,
                b,
            ) implies no_target_at(img, w, h, target, a - 1, b) && no_target_at(
            img,
            w,
            h,
            target,
            a,
            b - 1,
        ) && no_target_at(img, w, h, target, a + 1, b) && no_target_at(
            img,
            w,
            h,
            target,
            a,
            b + 1,
        ) by {
            assert(!on_stack(stack, a - 1, b));
            assert(!on_stack(stack, a, b - 1));
            assert(!on_stack(stack, a + 1, b));
            assert(!on_stack(stack, a, b + 1));
        }
    } else {
        let x = stack.last().0;
        let y = stack.last().1;
        let rest = stack.drop_last();
        lemma_row_major_bound(w, h, x, y);
        if img[pix_index(w, x, y)] != target {
            assert(spec_flood(img, w, h, target, stack) == spec_flood(img, w, h, target, rest));
            assert forall|a: int, b: int|
                coord_in_bounds(w, h, a, b) && #[trigger] repainted(
                    img0,
                    img,
                    w,
                    target,
                    a,
                    b,
                ) implies neighbor_settled(img, w, h, target, rest, a - 1, b) && neighbor_settled(
                img,
                w,
                h,
                target,
                rest,
                a,
                b - 1,
            ) && neighbor_settled(img, w, h, target, rest, a + 1, b) && neighbor_settled(
                img,
                w,
                h,
                target,
                rest,
                a,
                b + 1,
            ) by {
                lemma_settled_after_pop(img, w, h, target, stack, a - 1, b);
                lemma_settled_after_pop(img, w, h, target, stack, a, b - 1);
                lemma_settled_after_pop(img, w, h, target, stack, a + 1, b);
                lemma_settled_after_pop(img, w, h, target, stack, a, b + 1);
            }
            lemma_flood_closure_step(img0, img, w, h, target, rest);
        } else {
            let img2 = img.update(pix_index(w, x, y), spec_separator_color());
            let stack2 = rest + flood_neighbors(w, h, x, y);
            lemma_non_sep_update(img, pix_index(w, x, y));
            assert(spec_flood(img, w, h, target, stack) == spec_flood(img2, w, h, target, stack2));
            lemma_neighbors_on_stack(w, h, x, y, rest);
            assert forall|a: int, b: int|
                coord_in_bounds(w, h, a, b) && #[trigger] repainted(
                    img0,
                    img2,
                    w,
                    target,
                    a,
                    b,
                ) implies neighbor_settled(img2, w, h, target, stack2, a - 1, b)
                && neighbor_settled(img2, w, h, target, stack2, a, b - 1) && neighbor_settled(
                img2,
                w,
                h,
                target,
                stack2,
                a,
                b + 1,
            ) && neighbor_settled(img2, w, h, target, stack2, a + 1, b) by {
                if a == x && b == y {
                    lemma_settled_seed(img, img2, w, h, target, stack, stack2, x, y, x - 1, y);
                    lemma_settled_seed(img, img2, w, h, target, stack, stack2, x, y, x, y - 1);
                    lemma_settled_seed(img, img2, w, h, target, stack, stack2, x, y, x + 1, y);
                    lemma_settled_seed(img, img2, w, h, target, stack, stack2, x, y, x, y + 1);
                } else {
                    lemma_row_major_bound(w, h, a, b);
                    assert(pix_index(w, a, b) != pix_index(w, x, y)) by (nonlinear_arith)
                        requires
                            0 <= a < w,
                            0 <= b < h,
                            0 <= x < w,
                            0 <= y < h,
                            !(a == x && b == y),
                    ;
                    assert(repainted(img0, img, w, target, a, b));
                    lemma_settled_after_paint(img, img2, w, h, target, stack, stack2, x, y, a - 1, b);
                    lemma_settled_after_paint(img, img2, w, h, target, stack, stack2, x, y, a, b - 1);
                    lemma_settled_after_paint(img, img2, w, h, target, stack, stack2, x, y, a + 1, b);
                    lemma_settled_after_paint(img, img2, w, h, target, stack, stack2, x, y, a, b + 1);
                }
            }
            lemma_flood_closure_step(img0, img2, w, h, target, stack2);
        }
    }
}

/// After popping a coordinate that does not hold the region color, every
/// settled neighbor stays settled.
proof fn lemma_settled_after_pop(
    img: Seq<Rgb8>,
    w: nat,
    h: nat,
    target: Rgb8,
    stack: Seq<(int, int)>,
    a: int,
    b: int,
)
    requires
        stack.len() > 0,
        img[pix_index(w, stack.last().0, stack.last().1)] != target,
        neighbor_settled(img, w, h, target, stack, a, b),
    ensures
        neighbor_settled(img, w, h, target, stack.drop_last(), a, b),
{
    let x = stack.last().0;
    let y = stack.last().1;
    if coord_in_bounds(w, h, a, b) && img[pix_index(w, a, b)] == target {
        if (a, b) == (x, y) {
            assert(false);
        } else {
            let j = choose|j: int| 0 <= j < stack.len() && stack[j] == (a, b);
            assert(stack.drop_last()[j] == (a, b));
        }
    }
}

/// The seed just painted: each of its in-bounds neighbors that still
/// holds the region color was pushed, so it is settled.
proof fn lemma_settled_seed(
    img: Seq<Rgb8>,
    img2: Seq<Rgb8>,
    w: nat,
    h: nat,
    target: Rgb8,
    stack: Seq<(int, int)>,
    stack2: Seq<(int, int)>,
    x: int,
    y: int,
    a: int,
    b: int,
)
    requires
        coord_in_bounds(w, h, x, y),
        stack.len() > 0,
        stack.last() == (x, y),
        stack2 == stack.drop_last() + flood_neighbors(w, h, x, y),
        a == x - 1 && b == y || a == x && b == y - 1 || a == x + 1 && b == y || a == x && b == y
            + 1,
    ensures
        neighbor_settled(img2, w, h, target, stack2, a, b),
{
    lemma_neighbors_on_stack(w, h, x, y, stack.drop_last());
    if coord_in_bounds(w, h, a, b) {
        assert(on_stack(stack2, a, b));
    }
}

/// A neighbor that was settled before the paint stays settled after it:
/// the painted pixel itself no longer holds the region color, and every
/// other pending coordinate is still pending.
proof fn lemma_settled_after_paint(
    img: Seq<Rgb8>,
    img2: Seq<Rgb8>,
    w: nat,
    h: nat,
    target: Rgb8,
    stack: Seq<(int, int)>,
    stack2: Seq<(int, int)>,
    x: int,
    y: int,
    a: int,
    b: int,
)
    requires
        target != spec_separator_color(),
        img.len() == w * h,
        coord_in_bounds(w, h, x, y),
        stack.len() > 0,
        stack.last() == (x, y),
        stack2 == stack.drop_last() + flood_neighbors(w, h, x, y),
        img2 == img.update(pix_index(w, x, y), spec_separator_color()),
        neighbor_settled(img, w, h, target, stack, a, b),
    ensures
        neighbor_settled(img2, w, h, target, stack2, a, b),
{
    if coord_in_bounds(w, h, a, b) {
        lemma_row_major_bound(w, h, a, b);
        lemma_row_major_bound(w, h, x, y);
        if (a, b) == (x, y) {
            assert(pix_index(w, a, b) == pix_index(w, x, y));
            assert(img2[pix_index(w, a, b)] == spec_separator_color());
        } else {
            assert(pix_index(w, a, b) != pix_index(w, x, y)) by (nonlinear_arith)
                requires
                    0 <= a < w,
                    0 <= b < h,
                    0 <= x < w,
                    0 <= y < h,
                    !(a == x && b == y),
            ;
            assert(img2[pix_index(w, a, b)] == img[pix_index(w, a, b)]);
            if img[pix_index(w, a, b)] == target {
                if on_stack(stack, a, b) {
                    let j = choose|j: int| 0 <= j < stack.len() && stack[j] == (a, b);
                    assert(j < stack.len() - 1);
                    assert(stack2[j] == (a, b));
                }
            }
        }
    }
}

/// Law: a flood fill from a seed of the region color consumes the seed,
/// consumes only pixels of that color, and leaves no consumed pixel
/// bordering an unconsumed pixel of the same color — together: exactly
/// the seed's whole 4-connected same-color region is consumed, which is
/// why each region contributes exactly one cell to the grid.
pub proof fn lemma_flood_consumes_region(img: Seq<Rgb8>, w: nat, h: nat, x: int, y: int)
    requires
        img.len() == w * h,
        coord_in_bounds(w, h, x, y),
        img[pix_index(w, x, y)] != spec_separator_color(),
    ensures
        ({
            let target = img[pix_index(w, x, y)];
            let consumed = spec_flood(img, w, h, target, seq![(x, y)]);
            &&& repainted(img, consumed, w, target, x, y)
            &&& forall|i: int|
                0 <= i < img.len() && consumed[i] != img[i] ==> img[i] == target
                    && consumed[i] == spec_separator_color()
            &&& region_closed(img, consumed, w, h, target)
        }),
{
    let target = img[pix_index(w, x, y)];
    let seed = seq![(x, y)];
    lemma_row_major_bound(w, h, x, y);
    assert(stack_in_bounds(w, h, seed));
    lemma_flood_len(img, w, h, target, seed);
    lemma_flood_frame(img, w, h, target, seed);
    lemma_flood_stack_done(img, w, h, target, seed);
    lemma_flood_only_target(img, w, h, target, seed);
    let consumed = spec_flood(img, w, h, target, seed);
    assert(seed[0] == (x, y));
    assert(consumed[pix_index(w, seed[0].0, seed[0].1)] != target);
    assert(consumed[pix_index(w, x, y)] != target);
    assert(consumed[pix_index(w, x, y)] == spec_separator_color());
    assert forall|a: int, b: int|
        coord_in_bounds(w, h, a, b) && #[trigger] repainted(img, img, w, target, a, b) implies
        false by {
        lemma_row_major_bound(w, h, a, b);
    }
    assert(closure_pending(img, img, w, h, target, seed));
    lemma_flood_closure_step(img, img, w, h, target, seed);
}

} // verus!
