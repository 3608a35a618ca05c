use vstd::prelude::*;
use vstd::arithmetic::div_mod::{
    lemma_fundamental_div_mod, lemma_fundamental_div_mod_converse_div,
    lemma_fundamental_div_mod_converse_mod,
};
use crate::color::BlendMode;

verus! {

/// A raster of `width * height` pixels, stored row by row in a separate
/// buffer; pixel `(x, y)` sits at index `y * width + x`.
pub struct Canvas<C> {
    pub width: usize,
    pub height: usize,
    pub default_color: C,
}

/// An integer position on a raster.
#[derive(Clone, Copy, Debug)]
pub struct Pos2 {
    pub e: [i32; 2],
}

impl Pos2 {
    pub fn new(x: i32, y: i32) -> (r: Pos2)
        ensures
            r.e[0] == x,
            r.e[1] == y,
    {
        Pos2 { e: [x, y] }
    }

    pub fn x(&self) -> (r: i32)
        ensures
            r == self.e[0],
    {
        self.e[0]
    }

    pub fn y(&self) -> (r: i32)
        ensures
            r == self.e[1],
    {
        self.e[1]
    }
}

// ----------------------------------------------------------------------------
// Pixels of a canvas

/// `(x, y)` is a pixel of a canvas of the given size. The size is compared as
/// a 32-bit signed value, as the drawing code compares it.
pub open spec fn in_canvas(w: usize, h: usize, x: int, y: int) -> bool {
    0 <= x && 0 <= y && x < (w as i32) as int && y < (h as i32) as int
}

/// Index of pixel `(x, y)` in the buffer.
pub open spec fn pixel_index(w: usize, x: int, y: int) -> int {
    y * (w as int) + x
}

/// Drawing at `(x, y)` into a buffer of length `len` stays within the buffer:
/// an empty buffer and a pixel off the canvas are left alone.
pub open spec fn writable(len: int, w: usize, h: usize, x: int, y: int) -> bool {
    len == 0 || !in_canvas(w, h, x, y) || pixel_index(w, x, y) < len
}

/// The column of buffer index `k`.
pub open spec fn index_x(w: usize, k: int) -> int {
    k % (w as int)
}

/// The row of buffer index `k`.
pub open spec fn index_y(w: usize, k: int) -> int {
    k / (w as int)
}

/// A pixel on the canvas lies at a column below the width.
pub proof fn lemma_in_canvas_below_width(w: usize, h: usize, x: int, y: int)
    requires
        in_canvas(w, h, x, y),
    ensures
        x < w as int,
        y < h as int,
        w > 0,
        h > 0,
{
    if w as int <= i32::MAX as int {
        assert((w as i32) as int == w as int);
    }
    if h as int <= i32::MAX as int {
        assert((h as i32) as int == h as int);
    }
}

/// The buffer index of a pixel gives back its column and row.
pub proof fn lemma_index_roundtrip(w: usize, x: int, y: int)
    requires
        0 <= x < w as int,
        0 <= y,
    ensures
        index_x(w, pixel_index(w, x, y)) == x,
        index_y(w, pixel_index(w, x, y)) == y,
{
    lemma_fundamental_div_mod_converse_mod(pixel_index(w, x, y), w as int, y, x);
    lemma_fundamental_div_mod_converse_div(pixel_index(w, x, y), w as int, y, x);
}

/// A buffer index is the index of its column and row.
pub proof fn lemma_index_decompose(w: usize, k: int)
    requires
        w > 0,
        0 <= k,
    ensures
        k == pixel_index(w, index_x(w, k), index_y(w, k)),
        0 <= index_x(w, k) < w as int,
        0 <= index_y(w, k),
{
    lemma_fundamental_div_mod(k, w as int);
    assert(index_y(w, k) * (w as int) == (w as int) * (k / (w as int))) by (nonlinear_arith);
    assert(0 <= index_y(w, k)) by {
        vstd::arithmetic::div_mod::lemma_div_pos_is_pos(k, w as int);
    }
}

/// Two pixels of the canvas with the same buffer index are the same pixel.
pub proof fn lemma_index_injective(w: usize, h: usize, x: int, y: int, k: int)
    requires
        in_canvas(w, h, x, y),
        0 <= k,
        k == pixel_index(w, x, y),
    ensures
        index_x(w, k) == x,
        index_y(w, k) == y,
{
    lemma_in_canvas_below_width(w, h, x, y);
    lemma_index_roundtrip(w, x, y);
}

/// Writes `color` at `(x, y)` when the buffer is non-empty and the pixel is on
/// the canvas; leaves the buffer alone otherwise.
fn set_pixel<C: Copy>(buffer: &mut Vec<C>, c: &Canvas<C>, x: i32, y: i32, color: C)
    requires
        writable(old(buffer).len() as int, c.width, c.height, x as int, y as int),
    ensures
        final(buffer)@ == (if old(buffer).len() > 0 && in_canvas(c.width, c.height, x as int, y as int) {
            old(buffer)@.update(pixel_index(c.width, x as int, y as int), color)
        } else {
            old(buffer)@
        }),
{
    if buffer.len() == 0 {
        return;
    }
    if x < 0 || y < 0 || x >= c.width as i32 || y >= c.height as i32 {
        return;
    }
    let idx = y as usize * c.width + x as usize;
    buffer[idx] = color;
}

/// Draws `color` at pixel `(x, y)` with the given blend mode. A pixel off the
/// canvas, or an empty buffer, is left alone. `Overwrite` overwrites the pixel,
/// `Add` stores `blend(color, current)`, and the other modes leave it unchanged.
pub fn draw_pixel<C: Copy, F: Fn(C, C) -> C>(
    buffer: &mut Vec<C>,
    c: &Canvas<C>,
    x: i32,
    y: i32,
    color: C,
    blend_mode: BlendMode,
    blend: &F,
)
    requires
        writable(old(buffer).len() as int, c.width, c.height, x as int, y as int),
        forall|a: C, b: C| blend.requires((a, b)),
    ensures
        final(buffer)@.len() == old(buffer)@.len(),
        !(old(buffer).len() > 0 && in_canvas(c.width, c.height, x as int, y as int))
            ==> final(buffer)@ == old(buffer)@,
        old(buffer).len() > 0 && in_canvas(c.width, c.height, x as int, y as int) ==> {
            let k = pixel_index(c.width, x as int, y as int);
            match blend_mode {
                BlendMode::Overwrite => final(buffer)@ == old(buffer)@.update(k, color),
                BlendMode::Add => final(buffer)@ == old(buffer)@.update(k, final(buffer)@[k])
                    && blend.ensures((color, old(buffer)@[k]), final(buffer)@[k]),
                _ => final(buffer)@ == old(buffer)@,
            }
        },
{
    if buffer.len() == 0 {
        return;
    }
    if x < 0 || y < 0 || x >= c.width as i32 || y >= c.height as i32 {
        return;
    }
    let idx = y as usize * c.width + x as usize;
    match blend_mode {
        BlendMode::Overwrite => {
            buffer[idx] = color;
        },
        BlendMode::Add => {
            let current_color = buffer[idx];
            let blended = blend(color, current_color);
            buffer[idx] = blended;
        },
        BlendMode::Subtract => {},
        BlendMode::Multiply => {},
        BlendMode::AlphaBlend => {},
    }
}


// ----------------------------------------------------------------------------
// Painting pixels

/// `new` is `old` with the canvas pixels that satisfy `painted` changed, each
/// such entry's new value related to its old one by `good`; every other entry
/// is unchanged.
pub open spec fn painted_as<C>(
    old: Seq<C>,
    new: Seq<C>,
    w: usize,
    h: usize,
    painted: spec_fn(int, int) -> bool,
    good: spec_fn(C, C) -> bool,
) -> bool {
    &&& new.len() == old.len()
    &&& forall|k: int|
        0 <= k < old.len() ==> if in_canvas(w, h, index_x(w, k), index_y(w, k)) && painted(
            index_x(w, k),
            index_y(w, k),
        ) {
            good(old[k], #[trigger] new[k])
        } else {
            new[k] == old[k]
        }
}

/// The new value is `color`, whatever the old one was.
pub open spec fn set_to<C>(color: C) -> spec_fn(C, C) -> bool {
    |o: C, n: C| n == color
}

/// Painting one more pixel `(x, y)` (one not painted yet) with a value related
/// to its old one by `good` extends the set of painted pixels by that pixel.
pub proof fn lemma_paint_pixel<C>(
    old: Seq<C>,
    before: Seq<C>,
    after: Seq<C>,
    w: usize,
    h: usize,
    x: int,
    y: int,
    v: C,
    good: spec_fn(C, C) -> bool,
    pre: spec_fn(int, int) -> bool,
    post: spec_fn(int, int) -> bool,
)
    requires
        painted_as(old, before, w, h, pre, good),
        writable(old.len() as int, w, h, x, y),
        after == (if old.len() > 0 && in_canvas(w, h, x, y) {
            before.update(pixel_index(w, x, y), v)
        } else {
            before
        }),
        old.len() > 0 && in_canvas(w, h, x, y) ==> good(old[pixel_index(w, x, y)], v),
        !pre(x, y),
        forall|px: int, py: int| #[trigger] post(px, py) == (pre(px, py) || (px == x && py == y)),
    ensures
        painted_as(old, after, w, h, post, good),
{
    let len = old.len() as int;
    assert forall|k: int| 0 <= k < len implies if in_canvas(w, h, index_x(w, k), index_y(w, k)) && post(
        index_x(w, k),
        index_y(w, k),
    ) {
        good(old[k], #[trigger] after[k])
    } else {
        after[k] == old[k]
    } by {
        let kx = index_x(w, k);
        let ky = index_y(w, k);
        assert(post(kx, ky) == (pre(kx, ky) || (kx == x && ky == y)));
        if in_canvas(w, h, kx, ky) {
            lemma_in_canvas_below_width(w, h, kx, ky);
            lemma_index_decompose(w, k);
        }
        if len > 0 && in_canvas(w, h, x, y) {
            let k0 = pixel_index(w, x, y);
            lemma_index_injective(w, h, x, y, k0);
            if k == k0 {
                assert(kx == x && ky == y);
                assert(before[k] == old[k]);
            } else {
                assert(after[k] == before[k]);
                assert(!(kx == x && ky == y));
            }
        } else {
            assert(after == before);
            if kx == x && ky == y {
                assert(!in_canvas(w, h, kx, ky));
            }
        }
    }
}

/// Painting the same value relation over the same pixels, however those
/// pixels are described.
pub proof fn lemma_painted_as_same<C>(
    old: Seq<C>,
    new: Seq<C>,
    w: usize,
    h: usize,
    p1: spec_fn(int, int) -> bool,
    p2: spec_fn(int, int) -> bool,
    good: spec_fn(C, C) -> bool,
)
    requires
        painted_as(old, new, w, h, p1, good),
        forall|px: int, py: int| in_canvas(w, h, px, py) ==> #[trigger] p1(px, py) == #[trigger] p2(px, py),
    ensures
        painted_as(old, new, w, h, p2, good),
{
    assert forall|k: int| 0 <= k < old.len() implies if in_canvas(w, h, index_x(w, k), index_y(w, k)) && p2(
        index_x(w, k),
        index_y(w, k),
    ) {
        good(old[k], #[trigger] new[k])
    } else {
        new[k] == old[k]
    } by {
        if in_canvas(w, h, index_x(w, k), index_y(w, k)) {
            assert(p1(index_x(w, k), index_y(w, k)) == p2(index_x(w, k), index_y(w, k)));
        }
    }
}

// ----------------------------------------------------------------------------
// Lines

pub open spec fn spec_abs(d: int) -> int {
    if d < 0 { -d } else { d }
}

/// `k` steps away from a start, in the direction of the sign of `d`.
pub open spec fn toward(d: int, k: int) -> int {
    if d < 0 { -k } else { k }
}

/// The minor-axis offset of the `i`-th pixel of a line whose major axis runs
/// `run` pixels while its minor axis rises `rise`: the ideal offset
/// `i * rise / run`, rounded half up.
pub open spec fn step(i: int, run: int, rise: int) -> int {
    (2 * rise * i + run) / (2 * run)
}

/// The line runs mostly along x.
pub open spec fn is_h(x0: int, y0: int, x1: int, y1: int) -> bool {
    spec_abs(x1 - x0) > spec_abs(y1 - y0)
}

/// The endpoints of a line drawn along x, left one first.
pub open spec fn h_ends(x0: int, y0: int, x1: int, y1: int) -> (int, int, int, int) {
    if x0 > x1 { (x1, y1, x0, y0) } else { (x0, y0, x1, y1) }
}

/// The endpoints of a line drawn along y, upper one first.
pub open spec fn v_ends(x0: int, y0: int, x1: int, y1: int) -> (int, int, int, int) {
    if y0 > y1 { (x1, y1, x0, y0) } else { (x0, y0, x1, y1) }
}

/// Pixel `(x, y)` belongs to the line drawn along x: one pixel per column from
/// one endpoint to the other, each at the rounded row of the ideal line. A
/// line whose endpoints share their column has no pixel.
pub open spec fn on_h_line(x0: int, y0: int, x1: int, y1: int, x: int, y: int) -> bool {
    let (ax, ay, bx, by) = h_ends(x0, y0, x1, y1);
    &&& bx != ax
    &&& 0 <= x - ax <= bx - ax
    &&& y == ay + toward(by - ay, step(x - ax, bx - ax, spec_abs(by - ay)))
}

/// Pixel `(x, y)` belongs to the line drawn along y: one pixel per row from one
/// endpoint to the other, each at the rounded column of the ideal line. A line
/// whose endpoints share their row has no pixel.
pub open spec fn on_v_line(x0: int, y0: int, x1: int, y1: int, x: int, y: int) -> bool {
    let (ax, ay, bx, by) = v_ends(x0, y0, x1, y1);
    &&& by != ay
    &&& 0 <= y - ay <= by - ay
    &&& x == ax + toward(bx - ax, step(y - ay, by - ay, spec_abs(bx - ax)))
}

/// Pixel `(x, y)` belongs to the line from `(x0, y0)` to `(x1, y1)`: drawn
/// along its major axis, one pixel per step, from one endpoint to the other,
/// each at the rounded minor-axis position of the ideal line. A line whose
/// endpoints coincide has no pixel.
pub open spec fn on_line(x0: int, y0: int, x1: int, y1: int, x: int, y: int) -> bool {
    if is_h(x0, y0, x1, y1) {
        on_h_line(x0, y0, x1, y1, x, y)
    } else {
        on_v_line(x0, y0, x1, y1, x, y)
    }
}

/// The number of pixels of the line.
pub open spec fn line_len(x0: int, y0: int, x1: int, y1: int) -> int {
    if is_h(x0, y0, x1, y1) {
        spec_abs(x1 - x0) + 1
    } else if y0 != y1 {
        spec_abs(y1 - y0) + 1
    } else {
        0
    }
}

pub open spec fn fits_i32(v: int) -> bool {
    i32::MIN <= v <= i32::MAX
}

/// Both coordinate differences, and their absolute values, fit in 32 bits.
pub open spec fn diffs_ok(x0: int, y0: int, x1: int, y1: int) -> bool {
    spec_abs(x1 - x0) <= i32::MAX && spec_abs(y1 - y0) <= i32::MAX
}

/// A major-axis run of `run` with minor rise `rise` can be drawn with 32-bit
/// arithmetic: the loop counts to `run + 1`, and once the minor axis moves
/// the error term subtracts `2 * run`.
pub open spec fn run_ok(run: int, rise: int) -> bool {
    if rise == 0 { run < i32::MAX } else { run <= i32::MAX / 2 }
}

/// The line drawn along x can be drawn with 32-bit arithmetic, including the
/// row the loop reaches one step past the last pixel.
pub open spec fn h_line_ok(x0: int, y0: int, x1: int, y1: int) -> bool {
    let (ax, ay, bx, by) = h_ends(x0, y0, x1, y1);
    bx == ax || {
        &&& run_ok(bx - ax, spec_abs(by - ay))
        &&& fits_i32(ay + toward(by - ay, step(bx - ax + 1, bx - ax, spec_abs(by - ay))))
    }
}

/// The line drawn along y can be drawn with 32-bit arithmetic, including the
/// column the loop reaches one step past the last pixel.
pub open spec fn v_line_ok(x0: int, y0: int, x1: int, y1: int) -> bool {
    let (ax, ay, bx, by) = v_ends(x0, y0, x1, y1);
    by == ay || {
        &&& run_ok(by - ay, spec_abs(bx - ax))
        &&& fits_i32(ax + toward(bx - ax, step(by - ay + 1, by - ay, spec_abs(bx - ax))))
    }
}

/// The line can be drawn with 32-bit arithmetic.
pub open spec fn line_ok(x0: int, y0: int, x1: int, y1: int) -> bool {
    &&& diffs_ok(x0, y0, x1, y1)
    &&& if is_h(x0, y0, x1, y1) { h_line_ok(x0, y0, x1, y1) } else { v_line_ok(x0, y0, x1, y1) }
}

/// Every pixel of the line can be written into a buffer of length `len`.
pub open spec fn line_writable(
    len: int,
    w: usize,
    h: usize,
    x0: int,
    y0: int,
    x1: int,
    y1: int,
) -> bool {
    forall|x: int, y: int| on_line(x0, y0, x1, y1, x, y) ==> writable(len, w, h, x, y)
}

/// `new` is `old` with every pixel of the line on the canvas set to `color`.
pub open spec fn line_drawn<C>(
    old: Seq<C>,
    new: Seq<C>,
    w: usize,
    h: usize,
    x0: int,
    y0: int,
    x1: int,
    y1: int,
    color: C,
) -> bool {
    painted_as(old, new, w, h, |x: int, y: int| on_line(x0, y0, x1, y1, x, y), set_to(color))
}

/// `step` grows with `i`.
pub proof fn lemma_step_monotone(i: int, j: int, run: int, rise: int)
    requires
        0 <= i <= j,
        run > 0,
        rise >= 0,
    ensures
        step(i, run, rise) <= step(j, run, rise),
{
    assert(2 * rise * i + run <= 2 * rise * j + run) by (nonlinear_arith)
        requires
            0 <= i <= j,
            rise >= 0,
    ;
    vstd::arithmetic::div_mod::lemma_div_is_ordered(2 * rise * i + run, 2 * rise * j + run, 2 * run);
}

/// The first step is 0 and the step at the far end is the whole rise.
pub proof fn lemma_step_ends(run: int, rise: int)
    requires
        run > 0,
        rise >= 0,
    ensures
        step(0, run, rise) == 0,
        step(run, run, rise) == rise,
{
    lemma_fundamental_div_mod_converse_div(2 * rise * 0 + run, 2 * run, 0, run);
    assert(2 * rise * run + run == rise * (2 * run) + run) by (nonlinear_arith);
    lemma_fundamental_div_mod_converse_div(2 * rise * run + run, 2 * run, rise, run);
}

/// Draws a line along x with an integer error term: one pixel per column.
fn draw_line_h<C: Copy>(buffer: &mut Vec<C>, c: &Canvas<C>, x0: i32, y0: i32, x1: i32, y1: i32, color: &C)
    requires
        spec_abs(y1 - y0) <= spec_abs(x1 - x0),
        diffs_ok(x0 as int, y0 as int, x1 as int, y1 as int),
        h_line_ok(x0 as int, y0 as int, x1 as int, y1 as int),
        forall|x: int, y: int|
            on_h_line(x0 as int, y0 as int, x1 as int, y1 as int, x, y) ==> writable(
                old(buffer).len() as int,
                c.width,
                c.height,
                x,
                y,
            ),
    ensures
        painted_as(
            old(buffer)@,
            final(buffer)@,
            c.width,
            c.height,
            |x: int, y: int| on_h_line(x0 as int, y0 as int, x1 as int, y1 as int, x, y),
            set_to(*color),
        ),
{
    let ghost old_buf = buffer@;
    let ghost len = buffer.len() as int;
    let ghost w = c.width;
    let ghost hh = c.height;
    let mut ax = x0;
    let mut ay = y0;
    let mut bx = x1;
    let mut by = y1;
    if x0 > x1 {
        ax = x1;
        ay = y1;
        bx = x0;
        by = y0;
    }
    let dx = bx - ax;
    let dy0 = by - ay;
    let dir: i32 = if dy0 < 0 { -1 } else { 1 };
    let dy = if dy0 < 0 { -dy0 } else { dy0 };
    let ghost good = set_to(*color);
    if dx != 0 {
        let mut y = ay;
        let mut p: i32 = 2 * dy - dx;
        let ghost mut a: int = dx as int;
        let ghost mut k: int = 0;
        let ghost mut q: int = 0;
        let mut i: i32 = 0;
        proof {
            lemma_step_ends(dx as int, dy as int);
            assert(painted_as(old_buf, buffer@, w, hh, |px: int, py: int| 0 <= px - ax < 0
                && py == ay + toward(dy0 as int, step(px - ax, dx as int, dy as int)), good));
        }
        while i < dx + 1
            invariant
                (ax as int, ay as int, bx as int, by as int) == h_ends(x0 as int, y0 as int, x1 as int, y1 as int),
                dx == bx - ax,
                dy0 == by - ay,
                dy == spec_abs(dy0 as int),
                dir == (if dy0 < 0 { -1int } else { 1 }),
                0 <= dy <= dx,
                0 < dx,
                run_ok(dx as int, dy as int),
                0 <= i <= dx + 1,
                a == 2 * (dy as int) * (i as int) + dx,
                0 <= k,
                q == k * (2 * (dx as int)),
                q <= a < q + 2 * (dx as int),
                p == a + 2 * (dy as int) - 2 * (dx as int) - q,
                y == ay + toward(dy0 as int, k),
                fits_i32(ay + toward(dy0 as int, step(dx + 1, dx as int, dy as int))),
                forall|x: int, y: int|
                    on_h_line(x0 as int, y0 as int, x1 as int, y1 as int, x, y) ==> writable(len, w, hh, x, y),
                len == old_buf.len(),
                buffer@.len() == len,
                c.width == w,
                c.height == hh,
                good == set_to(*color),
                painted_as(old_buf, buffer@, w, hh, |px: int, py: int| 0 <= px - ax < i
                    && py == ay + toward(dy0 as int, step(px - ax, dx as int, dy as int)), good),
            decreases dx + 1 - i,
        {
            proof {
                lemma_fundamental_div_mod_converse_div(a, 2 * (dx as int), k, a - q);
                assert(k == step(i as int, dx as int, dy as int));
                lemma_step_monotone(i as int, dx as int, dx as int, dy as int);
                lemma_step_monotone(i as int + 1, dx as int + 1, dx as int, dy as int);
                assert(on_h_line(x0 as int, y0 as int, x1 as int, y1 as int, (ax + i) as int, y as int));
            }
            let ghost before = buffer@;
            set_pixel(buffer, c, ax + i, y, *color);
            proof {
                let pre = |px: int, py: int| 0 <= px - ax < i
                    && py == ay + toward(dy0 as int, step(px - ax, dx as int, dy as int));
                let post = |px: int, py: int| 0 <= px - ax < i + 1
                    && py == ay + toward(dy0 as int, step(px - ax, dx as int, dy as int));
                lemma_paint_pixel(old_buf, before, buffer@, w, hh, (ax + i) as int, y as int, *color, good, pre, post);
            }
            if p >= 0 {
                proof {
                    assert((k + 1) * (2 * (dx as int)) == k * (2 * (dx as int)) + 2 * (dx as int)) by (nonlinear_arith);
                    lemma_fundamental_div_mod_converse_div(a + 2 * dy, 2 * (dx as int), k + 1, a + 2 * dy - q - 2 * dx);
                    assert(step(i as int + 1, dx as int, dy as int) == k + 1) by {
                        assert(2 * (dy as int) * (i as int + 1) + dx == a + 2 * dy) by (nonlinear_arith)
                            requires a == 2 * (dy as int) * (i as int) + dx;
                    }
                }
                y += dir;
                p = p - 2 * dx;
                proof {
                    k = k + 1;
                    q = q + 2 * dx;
                }
            }
            p = p + 2 * dy;
            proof {
                assert(2 * (dy as int) * (i as int + 1) + dx == a + 2 * dy) by (nonlinear_arith)
                    requires a == 2 * (dy as int) * (i as int) + dx;
                a = a + 2 * dy;
            }
            i += 1;
        }
        proof {
            lemma_painted_as_same(old_buf, buffer@, w, hh, |px: int, py: int| 0 <= px - ax < i
                && py == ay + toward(dy0 as int, step(px - ax, dx as int, dy as int)),
                |x: int, y: int| on_h_line(x0 as int, y0 as int, x1 as int, y1 as int, x, y), good);
        }
    } else {
        proof {
            lemma_painted_as_same(old_buf, buffer@, w, hh, |px: int, py: int| false,
                |x: int, y: int| on_h_line(x0 as int, y0 as int, x1 as int, y1 as int, x, y), good);
        }
    }
}

/// Draws a line along y with an integer error term: one pixel per row.
fn draw_line_v<C: Copy>(buffer: &mut Vec<C>, c: &Canvas<C>, x0: i32, y0: i32, x1: i32, y1: i32, color: &C)
    requires
        spec_abs(x1 - x0) <= spec_abs(y1 - y0),
        diffs_ok(x0 as int, y0 as int, x1 as int, y1 as int),
        v_line_ok(x0 as int, y0 as int, x1 as int, y1 as int),
        forall|x: int, y: int|
            on_v_line(x0 as int, y0 as int, x1 as int, y1 as int, x, y) ==> writable(
                old(buffer).len() as int,
                c.width,
                c.height,
                x,
                y,
            ),
    ensures
        painted_as(
            old(buffer)@,
            final(buffer)@,
            c.width,
            c.height,
            |x: int, y: int| on_v_line(x0 as int, y0 as int, x1 as int, y1 as int, x, y),
            set_to(*color),
        ),
{
    let ghost old_buf = buffer@;
    let ghost len = buffer.len() as int;
    let ghost w = c.width;
    let ghost hh = c.height;
    let mut ax = x0;
    let mut ay = y0;
    let mut bx = x1;
    let mut by = y1;
    if y0 > y1 {
        ax = x1;
        ay = y1;
        bx = x0;
        by = y0;
    }
    let dx = by - ay;
    let dy0 = bx - ax;
    let dir: i32 = if dy0 < 0 { -1 } else { 1 };
    let dy = if dy0 < 0 { -dy0 } else { dy0 };
    let ghost good = set_to(*color);
    if dx != 0 {
        let mut y = ax;
        let mut p: i32 = 2 * dy - dx;
        let ghost mut a: int = dx as int;
        let ghost mut k: int = 0;
        let ghost mut q: int = 0;
        let mut i: i32 = 0;
        proof {
            lemma_step_ends(dx as int, dy as int);
            assert(painted_as(old_buf, buffer@, w, hh, |px: int, py: int| 0 <= py - ay < 0
                && px == ax + toward(dy0 as int, step(py - ay, dx as int, dy as int)), good));
        }
        while i < dx + 1
            invariant
                (ax as int, ay as int, bx as int, by as int) == v_ends(x0 as int, y0 as int, x1 as int, y1 as int),
                dx == by - ay,
                dy0 == bx - ax,
                dy == spec_abs(dy0 as int),
                dir == (if dy0 < 0 { -1int } else { 1 }),
                0 <= dy <= dx,
                0 < dx,
                run_ok(dx as int, dy as int),
                0 <= i <= dx + 1,
                a == 2 * (dy as int) * (i as int) + dx,
                0 <= k,
                q == k * (2 * (dx as int)),
                q <= a < q + 2 * (dx as int),
                p == a + 2 * (dy as int) - 2 * (dx as int) - q,
                y == ax + toward(dy0 as int, k),
                fits_i32(ax + toward(dy0 as int, step(dx + 1, dx as int, dy as int))),
                forall|x: int, y: int|
                    on_v_line(x0 as int, y0 as int, x1 as int, y1 as int, x, y) ==> writable(len, w, hh, x, y),
                len == old_buf.len(),
                buffer@.len() == len,
                c.width == w,
                c.height == hh,
                good == set_to(*color),
                painted_as(old_buf, buffer@, w, hh, |px: int, py: int| 0 <= py - ay < i
                    && px == ax + toward(dy0 as int, step(py - ay, dx as int, dy as int)), good),
            decreases dx + 1 - i,
        {
            proof {
                lemma_fundamental_div_mod_converse_div(a, 2 * (dx as int), k, a - q);
                assert(k == step(i as int, dx as int, dy as int));
                lemma_step_monotone(i as int, dx as int, dx as int, dy as int);
                lemma_step_monotone(i as int + 1, dx as int + 1, dx as int, dy as int);
                assert(on_v_line(x0 as int, y0 as int, x1 as int, y1 as int, y as int, (ay + i) as int));
            }
            let ghost before = buffer@;
            set_pixel(buffer, c, y, ay + i, *color);
            proof {
                let pre = |px: int, py: int| 0 <= py - ay < i
                    && px == ax + toward(dy0 as int, step(py - ay, dx as int, dy as int));
                let post = |px: int, py: int| 0 <= py - ay < i + 1
                    && px == ax + toward(dy0 as int, step(py - ay, dx as int, dy as int));
                lemma_paint_pixel(old_buf, before, buffer@, w, hh, y as int, (ay + i) as int, *color, good, pre, post);
            }
            if p >= 0 {
                proof {
                    assert((k + 1) * (2 * (dx as int)) == k * (2 * (dx as int)) + 2 * (dx as int)) by (nonlinear_arith);
                    lemma_fundamental_div_mod_converse_div(a + 2 * dy, 2 * (dx as int), k + 1, a + 2 * dy - q - 2 * dx);
                    assert(step(i as int + 1, dx as int, dy as int) == k + 1) by {
                        assert(2 * (dy as int) * (i as int + 1) + dx == a + 2 * dy) by (nonlinear_arith)
                            requires a == 2 * (dy as int) * (i as int) + dx;
                    }
                }
                y += dir;
                p = p - 2 * dx;
                proof {
                    k = k + 1;
                    q = q + 2 * dx;
                }
            }
            p = p + 2 * dy;
            proof {
                assert(2 * (dy as int) * (i as int + 1) + dx == a + 2 * dy) by (nonlinear_arith)
                    requires a == 2 * (dy as int) * (i as int) + dx;
                a = a + 2 * dy;
            }
            i += 1;
        }
        proof {
            lemma_painted_as_same(old_buf, buffer@, w, hh, |px: int, py: int| 0 <= py - ay < i
                && px == ax + toward(dy0 as int, step(py - ay, dx as int, dy as int)),
                |x: int, y: int| on_v_line(x0 as int, y0 as int, x1 as int, y1 as int, x, y), good);
        }
    } else {
        proof {
            lemma_painted_as_same(old_buf, buffer@, w, hh, |px: int, py: int| false,
                |x: int, y: int| on_v_line(x0 as int, y0 as int, x1 as int, y1 as int, x, y), good);
        }
    }
}

/// Draws the line from `(x0, y0)` to `(x1, y1)`: one pixel per step of the
/// major axis, both endpoints included, each at the nearest minor-axis
/// position (ties rounded up). A line whose endpoints coincide draws nothing.
pub fn draw_line<C: Copy>(buffer: &mut Vec<C>, c: &Canvas<C>, x0: i32, y0: i32, x1: i32, y1: i32, color: &C)
    requires
        line_ok(x0 as int, y0 as int, x1 as int, y1 as int),
        line_writable(old(buffer).len() as int, c.width, c.height, x0 as int, y0 as int, x1 as int, y1 as int),
    ensures
        line_drawn(old(buffer)@, final(buffer)@, c.width, c.height, x0 as int, y0 as int, x1 as int, y1 as int, *color),
{
    let ghost old_buf = buffer@;
    let ddx = x1 - x0;
    let ddy = y1 - y0;
    let adx = if ddx < 0 { -ddx } else { ddx };
    let ady = if ddy < 0 { -ddy } else { ddy };
    if adx > ady {
        draw_line_h(buffer, c, x0, y0, x1, y1, color);
        proof {
            lemma_painted_as_same(old_buf, buffer@, c.width, c.height,
                |x: int, y: int| on_h_line(x0 as int, y0 as int, x1 as int, y1 as int, x, y),
                |x: int, y: int| on_line(x0 as int, y0 as int, x1 as int, y1 as int, x, y), set_to(*color));
        }
    } else {
        draw_line_v(buffer, c, x0, y0, x1, y1, color);
        proof {
            lemma_painted_as_same(old_buf, buffer@, c.width, c.height,
                |x: int, y: int| on_v_line(x0 as int, y0 as int, x1 as int, y1 as int, x, y),
                |x: int, y: int| on_line(x0 as int, y0 as int, x1 as int, y1 as int, x, y), set_to(*color));
        }
    }
}

/// A line drawn from one endpoint to the other holds the same pixels as the
/// line drawn the other way round, and is drawable under the same bounds.
pub proof fn lemma_line_symmetric(x0: int, y0: int, x1: int, y1: int, x: int, y: int)
    ensures
        on_line(x0, y0, x1, y1, x, y) == on_line(x1, y1, x0, y0, x, y),
        line_len(x0, y0, x1, y1) == line_len(x1, y1, x0, y0),
        line_ok(x0, y0, x1, y1) == line_ok(x1, y1, x0, y0),
{
}

/// Drawing a line from one endpoint to the other gives the same buffer as
/// drawing it the other way round.
pub proof fn lemma_line_drawn_symmetric<C>(
    old: Seq<C>,
    new: Seq<C>,
    w: usize,
    h: usize,
    x0: int,
    y0: int,
    x1: int,
    y1: int,
    color: C,
)
    requires
        line_drawn(old, new, w, h, x0, y0, x1, y1, color),
    ensures
        line_drawn(old, new, w, h, x1, y1, x0, y0, color),
{
    assert forall|px: int, py: int| in_canvas(w, h, px, py) implies #[trigger] on_line(x0, y0, x1, y1, px, py)
        == #[trigger] on_line(x1, y1, x0, y0, px, py) by {
        lemma_line_symmetric(x0, y0, x1, y1, px, py);
    }
    lemma_painted_as_same(old, new, w, h, |x: int, y: int| on_line(x0, y0, x1, y1, x, y),
        |x: int, y: int| on_line(x1, y1, x0, y0, x, y), set_to(color));
}

/// Drawing the same line twice leaves the buffer as drawing it once.
pub proof fn lemma_line_drawn_idempotent<C>(
    s0: Seq<C>,
    s1: Seq<C>,
    s2: Seq<C>,
    w: usize,
    h: usize,
    x0: int,
    y0: int,
    x1: int,
    y1: int,
    color: C,
)
    requires
        line_drawn(s0, s1, w, h, x0, y0, x1, y1, color),
        line_drawn(s1, s2, w, h, x0, y0, x1, y1, color),
    ensures
        s2 == s1,
{
    assert forall|k: int| 0 <= k < s1.len() implies s2[k] == s1[k] by {
        if in_canvas(w, h, index_x(w, k), index_y(w, k)) && on_line(x0, y0, x1, y1, index_x(w, k), index_y(w, k)) {
            assert(set_to(color)(s0[k], s1[k]));
            assert(set_to(color)(s1[k], s2[k]));
        } else {
            assert(s1[k] == s0[k]);
            assert(s2[k] == s1[k]);
        }
    }
    assert(s2 =~= s1);
}

/// A line with distinct endpoints holds both of them; a line whose endpoints
/// coincide holds no pixel at all.
pub proof fn lemma_line_endpoints(x0: int, y0: int, x1: int, y1: int)
    ensures
        (x0 != x1 || y0 != y1) ==> on_line(x0, y0, x1, y1, x0, y0) && on_line(x0, y0, x1, y1, x1, y1),
        (x0 == x1 && y0 == y1) ==> forall|x: int, y: int| !on_line(x0, y0, x1, y1, x, y),
        (x0 != x1 || y0 != y1) ==> line_len(x0, y0, x1, y1) > 0,
{
    if is_h(x0, y0, x1, y1) {
        let (ax, ay, bx, by) = h_ends(x0, y0, x1, y1);
        lemma_step_ends(bx - ax, spec_abs(by - ay));
    } else if y0 != y1 {
        let (ax, ay, bx, by) = v_ends(x0, y0, x1, y1);
        lemma_step_ends(by - ay, spec_abs(bx - ax));
    }
}

/// Each pixel's minor-axis offset is the ideal offset `i * rise / run`
/// rounded to the nearest integer: it is off by at most half a pixel.
pub proof fn lemma_step_nearest(i: int, run: int, rise: int)
    requires
        run > 0,
    ensures
        -run <= 2 * rise * i - 2 * run * step(i, run, rise) < run,
{
    let s = step(i, run, rise);
    lemma_fundamental_div_mod(2 * rise * i + run, 2 * run);
    vstd::arithmetic::div_mod::lemma_mod_bound(2 * rise * i + run, 2 * run);
    assert(2 * run * s == (2 * run) * ((2 * rise * i + run) / (2 * run)));
}

/// Consecutive pixels of a line are neighbours: the minor-axis offset grows
/// by 0 or 1 from one pixel to the next.
pub proof fn lemma_step_connected(i: int, run: int, rise: int)
    requires
        0 <= rise <= run,
        run > 0,
    ensures
        step(i, run, rise) <= step(i + 1, run, rise) <= step(i, run, rise) + 1,
{
    lemma_step_nearest(i, run, rise);
    lemma_step_nearest(i + 1, run, rise);
    let s0 = step(i, run, rise);
    let s1 = step(i + 1, run, rise);
    assert(2 * rise * (i + 1) == 2 * rise * i + 2 * rise) by (nonlinear_arith);
    assert(2 * run * s1 - 2 * run * s0 == 2 * run * (s1 - s0)) by (nonlinear_arith);
    assert(-2 * run < 2 * run * (s1 - s0) < 4 * run);
    if s1 - s0 < 0 {
        assert(2 * run * (s1 - s0) <= -2 * run) by (nonlinear_arith)
            requires s1 - s0 < 0, run > 0;
    }
    if s1 - s0 > 1 {
        assert(2 * run * (s1 - s0) >= 4 * run) by (nonlinear_arith)
            requires s1 - s0 >= 2, run > 0;
    }
}

/// Pixel `(x, y)` belongs to the row span from `x0` to `x1` on row `row`.
pub open spec fn on_span(row: int, x0: int, x1: int, x: int, y: int) -> bool {
    &&& y == row
    &&& if x0 <= x1 { x0 <= x <= x1 } else { x1 <= x <= x0 }
}

/// Fills row `y` from column `x0` to column `x1`, both included, in whichever
/// order they are given, with `color`; pixels off the canvas are skipped.
pub fn draw_span<C: Copy>(buffer: &mut Vec<C>, c: &Canvas<C>, y: i32, x0: i32, x1: i32, color: C)
    requires
        forall|x: int| #![trigger writable(old(buffer).len() as int, c.width, c.height, x, y as int)]
            on_span(y as int, x0 as int, x1 as int, x, y as int) ==> writable(
                old(buffer).len() as int,
                c.width,
                c.height,
                x,
                y as int,
            ),
    ensures
        painted_as(
            old(buffer)@,
            final(buffer)@,
            c.width,
            c.height,
            |px: int, py: int| on_span(y as int, x0 as int, x1 as int, px, py),
            set_to(color),
        ),
{
    let ghost old_buf = buffer@;
    let ghost len = buffer.len() as int;
    let ghost w = c.width;
    let ghost hh = c.height;
    let ghost good = set_to(color);
    let mut left_x = x0;
    let mut right_x = x1;
    if left_x > right_x {
        left_x = x1;
        right_x = x0;
    }
    let mut j = left_x;
    let mut done = false;
    assert forall|x: int| left_x <= x <= right_x implies writable(len, w, hh, x, y as int) by {
        assert(on_span(y as int, x0 as int, x1 as int, x, y as int));
        assert(writable(len, c.width, c.height, x, y as int));
    }
    assert(painted_as(old_buf, buffer@, w, hh, |px: int, py: int| py == y && left_x <= px
        && (px < j || (done && px <= j)), good));
    while !done
        invariant
            left_x <= right_x,
            left_x == (if x0 <= x1 { x0 } else { x1 }),
            right_x == (if x0 <= x1 { x1 } else { x0 }),
            left_x <= j <= right_x,
            done ==> j == right_x,
            len == old_buf.len(),
            buffer@.len() == len,
            c.width == w,
            c.height == hh,
            good == set_to(color),
            forall|x: int| left_x <= x <= right_x ==> writable(len, w, hh, x, y as int),
            painted_as(old_buf, buffer@, w, hh, |px: int, py: int| py == y && left_x <= px
                && (px < j || (done && px <= j)), good),
        decreases right_x - j + (if done { 0int } else { 1 }),
    {
        let ghost before = buffer@;
        set_pixel(buffer, c, j, y, color);
        proof {
            let pre = |px: int, py: int| py == y && left_x <= px && (px < j || (done && px <= j));
            let post = |px: int, py: int| py == y && left_x <= px && px <= j;
            lemma_paint_pixel(old_buf, before, buffer@, w, hh, j as int, y as int, color, good, pre, post);
        }
        if j == right_x {
            done = true;
        } else {
            j = j + 1;
        }
    }
    proof {
        lemma_painted_as_same(old_buf, buffer@, w, hh, |px: int, py: int| py == y && left_x <= px
            && (px < j || (done && px <= j)), |px: int, py: int| on_span(y as int, x0 as int, x1 as int, px, py), good);
    }
}

// ----------------------------------------------------------------------------
// Polygons

/// A triangle given by its three vertices.
pub struct Triangle<C> {
    pub vertices: [(i32, i32); 3],
    pub color: C,
}

/// A disk given by its center and radius.
pub struct Circle<C> {
    pub radius: i32,
    pub center: (i32, i32),
    pub color: C,
}

/// A quadrilateral, its vertices in clockwise order.
pub struct Quad<C> {
    pub vertices: [Pos2; 4],
    pub color: C,
}

/// An axis-aligned square given by its center and side length.
pub struct Square<C> {
    pub center: Pos2,
    pub side_length: i32,
    pub color: C,
}

/// The place of vertex `i` when the three vertices are ordered by row, ties
/// kept in their given order.
pub open spec fn rank_by_y(v: [(i32, i32); 3], i: int) -> int {
    (if v[0].1 < v[i].1 || (v[0].1 == v[i].1 && 0 < i) { 1int } else { 0 })
        + (if v[1].1 < v[i].1 || (v[1].1 == v[i].1 && 1 < i) { 1int } else { 0 })
        + (if v[2].1 < v[i].1 || (v[2].1 == v[i].1 && 2 < i) { 1int } else { 0 })
}

impl<C: Copy> Triangle<C> {
    /// The vertices ordered by row (the second coordinate), top first; vertices
    /// on the same row keep their given order.
    pub fn vertices_sorted_by_y(&self) -> (r: [(i32, i32); 3])
        ensures
            r[0].1 <= r[1].1 <= r[2].1,
            forall|i: int| 0 <= i < 3 ==> #[trigger] r[rank_by_y(self.vertices, i)] == self.vertices[i],
            forall|i: int, j: int|
                0 <= i < 3 && 0 <= j < 3 && i != j ==> rank_by_y(self.vertices, i) != rank_by_y(self.vertices, j),
    {
        let v = self.vertices;
        let mut r = v;
        let mut i: usize = 0;
        while i < 3
            invariant
                v == self.vertices,
                0 <= i <= 3,
                forall|j: int| 0 <= j < i ==> #[trigger] r[rank_by_y(v, j)] == v[j],
                forall|j: int| 0 <= j < 3 ==> 0 <= #[trigger] rank_by_y(v, j) < 3,
                forall|j: int, l: int|
                    0 <= j < 3 && 0 <= l < 3 && j != l ==> rank_by_y(v, j) != rank_by_y(v, l),
            decreases 3 - i,
        {
            let mut rank: usize = 0;
            let mut j: usize = 0;
            while j < 3
                invariant
                    0 <= i < 3,
                    0 <= j <= 3,
                    rank == (if j > 0 && (v[0].1 < v[i as int].1 || (v[0].1 == v[i as int].1 && 0 < i)) { 1int } else { 0 })
                        + (if j > 1 && (v[1].1 < v[i as int].1 || (v[1].1 == v[i as int].1 && 1 < i)) { 1int } else { 0 })
                        + (if j > 2 && (v[2].1 < v[i as int].1 || (v[2].1 == v[i as int].1 && 2 < i)) { 1int } else { 0 }),
                decreases 3 - j,
            {
                if v[j].1 < v[i].1 || (v[j].1 == v[i].1 && j < i) {
                    rank = rank + 1;
                }
                j = j + 1;
            }
            assert(rank == rank_by_y(v, i as int));
            r[rank] = v[i];
            i = i + 1;
        }
        proof {
            let r0 = rank_by_y(v, 0);
            let r1 = rank_by_y(v, 1);
            let r2 = rank_by_y(v, 2);
            assert(r[r0] == v[0] && r[r1] == v[1] && r[r2] == v[2]);
            assert(r0 < r1 ==> v[0].1 <= v[1].1);
            assert(r1 < r0 ==> v[1].1 <= v[0].1);
            assert(r0 < r2 ==> v[0].1 <= v[2].1);
            assert(r2 < r0 ==> v[2].1 <= v[0].1);
            assert(r1 < r2 ==> v[1].1 <= v[2].1);
            assert(r2 < r1 ==> v[2].1 <= v[1].1);
        }
        r
    }
}

/// Every pixel of the disk lies on the canvas rows and columns its drawing
/// loop visits, and the drawing arithmetic fits in 32 bits.
pub open spec fn circle_ok(cx: int, cy: int, r: int) -> bool {
    &&& fits_i32(cx - r) && fits_i32(cx + r)
    &&& fits_i32(cy - r) && fits_i32(cy + r)
    &&& fits_i32(r * r)
}

/// `(x, y)` is a pixel of the disk: within the half-open square
/// `[cx - r, cx + r) x [cy - r, cy + r)` and no farther than `r` from the
/// center.
pub open spec fn in_disk(cx: int, cy: int, r: int, x: int, y: int) -> bool {
    &&& cx - r <= x < cx + r
    &&& cy - r <= y < cy + r
    &&& (x - cx) * (x - cx) + (y - cy) * (y - cy) <= r * r
}

impl<C: Copy> Circle<C> {
    /// Outlines draw nothing for a circle.
    pub fn draw(&self, canvas: &Canvas<C>, buffer: &mut Vec<C>)
        ensures
            final(buffer)@ == old(buffer)@,
    {
    }

    /// Fills the disk, blending its color additively into each of its pixels
    /// on the canvas: each such pixel becomes `blend(color, current)`.
    pub fn draw_fill<F: Fn(C, C) -> C>(&self, canvas: &Canvas<C>, buffer: &mut Vec<C>, blend: &F)
        requires
            circle_ok(self.center.0 as int, self.center.1 as int, self.radius as int),
            forall|x: int, y: int|
                in_disk(self.center.0 as int, self.center.1 as int, self.radius as int, x, y)
                    ==> writable(old(buffer).len() as int, canvas.width, canvas.height, x, y),
            forall|a: C, b: C| blend.requires((a, b)),
        ensures
            painted_as(
                old(buffer)@,
                final(buffer)@,
                canvas.width,
                canvas.height,
                |x: int, y: int| in_disk(self.center.0 as int, self.center.1 as int, self.radius as int, x, y),
                |o: C, n: C| blend.ensures((self.color, o), n),
            ),
            forall|x: int, y: int|
                in_canvas(canvas.width, canvas.height, x, y) && pixel_index(canvas.width, x, y) < old(buffer).len()
                    ==> if self.center.0 - self.radius <= x < self.center.0 + self.radius
                    && self.center.1 - self.radius <= y < self.center.1 + self.radius
                    && (x - self.center.0) * (x - self.center.0) + (y - self.center.1) * (y - self.center.1)
                    <= self.radius * self.radius {
                    blend.ensures(
                        (self.color, old(buffer)@[pixel_index(canvas.width, x, y)]),
                        #[trigger] final(buffer)@[pixel_index(canvas.width, x, y)],
                    )
                } else {
                    final(buffer)@[pixel_index(canvas.width, x, y)] == old(buffer)@[pixel_index(canvas.width, x, y)]
                },
    {
        let ghost old_buf = buffer@;
        let ghost len = buffer@.len() as int;
        let ghost w = canvas.width;
        let ghost hh = canvas.height;
        let center_x = self.center.0;
        let center_y = self.center.1;
        let ghost cx = center_x as int;
        let ghost cy = center_y as int;
        let ghost rr = self.radius as int;
        let ghost good = |o: C, n: C| blend.ensures((self.color, o), n);
        let r_2 = self.radius * self.radius;
        let x_min = center_x - self.radius;
        let x_max = center_x + self.radius;
        let y_min = center_y - self.radius;
        let y_max = center_y + self.radius;
        let mut j = y_min;
        assert(painted_as(old_buf, buffer@, w, hh, |px: int, py: int| in_disk(cx, cy, rr, px, py) && py < j, good));
        while j < y_max
            invariant
                circle_ok(cx, cy, rr),
                center_x == cx,
                center_y == cy,
                self.radius == rr,
                r_2 == rr * rr,
                x_min == cx - rr,
                x_max == cx + rr,
                y_min == cy - rr,
                y_max == cy + rr,
                y_min <= j,
                y_min <= y_max ==> j <= y_max,
                len == old_buf.len(),
                buffer@.len() == len,
                canvas.width == w,
                canvas.height == hh,
                good == (|o: C, n: C| blend.ensures((self.color, o), n)),
                forall|x: int, y: int|
                    in_disk(cx, cy, rr, x, y) ==> writable(len, w, hh, x, y),
                forall|a: C, b: C| blend.requires((a, b)),
                painted_as(old_buf, buffer@, w, hh, |px: int, py: int| in_disk(cx, cy, rr, px, py) && py < j, good),
            decreases y_max - j,
        {
            let mut i = x_min;
            assert(painted_as(old_buf, buffer@, w, hh, |px: int, py: int| in_disk(cx, cy, rr, px, py)
                && (py < j || (py == j && px < i)), good)) by {
                lemma_painted_as_same(old_buf, buffer@, w, hh,
                    |px: int, py: int| in_disk(cx, cy, rr, px, py) && py < j,
                    |px: int, py: int| in_disk(cx, cy, rr, px, py) && (py < j || (py == j && px < i)), good);
            }
            while i < x_max
                invariant
                    circle_ok(cx, cy, rr),
                    center_x == cx,
                    center_y == cy,
                    self.radius == rr,
                    r_2 == rr * rr,
                    x_min == cx - rr,
                    x_max == cx + rr,
                    y_min == cy - rr,
                    y_max == cy + rr,
                    y_min <= j < y_max,
                    x_min <= i,
                    x_min <= x_max ==> i <= x_max,
                    len == old_buf.len(),
                    buffer@.len() == len,
                    canvas.width == w,
                    canvas.height == hh,
                    good == (|o: C, n: C| blend.ensures((self.color, o), n)),
                    forall|x: int, y: int|
                        in_disk(cx, cy, rr, x, y) ==> writable(len, w, hh, x, y),
                    forall|a: C, b: C| blend.requires((a, b)),
                    painted_as(old_buf, buffer@, w, hh, |px: int, py: int| in_disk(cx, cy, rr, px, py)
                        && (py < j || (py == j && px < i)), good),
                decreases x_max - i,
            {
                let dxi = (i - center_x) as i64;
                let dyj = (j - center_y) as i64;
                assert(-rr <= dxi <= rr && -rr <= dyj <= rr);
                assert(dxi * dxi <= rr * rr && dyj * dyj <= rr * rr) by (nonlinear_arith)
                    requires -rr <= dxi <= rr, -rr <= dyj <= rr;
                assert(0 <= dxi * dxi && 0 <= dyj * dyj) by (nonlinear_arith);
                let ghost before = buffer@;
                let ghost pre = |px: int, py: int| in_disk(cx, cy, rr, px, py) && (py < j || (py == j && px < i));
                let ghost post = |px: int, py: int| in_disk(cx, cy, rr, px, py) && (py < j || (py == j && px < i + 1));
                if dxi * dxi + dyj * dyj <= r_2 as i64 {
                    assert(in_disk(cx, cy, rr, i as int, j as int));
                    draw_pixel(buffer, canvas, i, j, self.color, BlendMode::Add, blend);
                    proof {
                        let x = i as int;
                        let y = j as int;
                        let v = buffer@[pixel_index(w, x, y)];
                        if len > 0 && in_canvas(w, hh, x, y) {
                            let k0 = pixel_index(w, x, y);
                            assert(writable(len, w, hh, x, y));
                            assert(buffer@ == before.update(k0, v));
                            lemma_index_injective(w, hh, x, y, k0);
                            assert(!pre(x, y));
                            assert(before[k0] == old_buf[k0]);
                            assert(good(old_buf[k0], v));
                        }
                        lemma_paint_pixel(old_buf, before, buffer@, w, hh, x, y, v, good, pre, post);
                    }
                } else {
                    proof {
                        assert(!in_disk(cx, cy, rr, i as int, j as int));
                        lemma_painted_as_same(old_buf, buffer@, w, hh, pre, post, good);
                    }
                }
                i = i + 1;
            }
            proof {
                lemma_painted_as_same(old_buf, buffer@, w, hh,
                    |px: int, py: int| in_disk(cx, cy, rr, px, py) && (py < j || (py == j && px < i)),
                    |px: int, py: int| in_disk(cx, cy, rr, px, py) && py < j + 1, good);
            }
            j = j + 1;
        }
        proof {
            lemma_painted_as_same(old_buf, buffer@, w, hh,
                |px: int, py: int| in_disk(cx, cy, rr, px, py) && py < j,
                |px: int, py: int| in_disk(cx, cy, rr, px, py), good);
            assert forall|x: int, y: int|
                in_canvas(w, hh, x, y) && pixel_index(w, x, y) < len implies if cx - rr <= x < cx + rr
                && cy - rr <= y < cy + rr && (x - cx) * (x - cx) + (y - cy) * (y - cy) <= rr * rr {
                good(old_buf[pixel_index(w, x, y)], #[trigger] buffer@[pixel_index(w, x, y)])
            } else {
                buffer@[pixel_index(w, x, y)] == old_buf[pixel_index(w, x, y)]
            } by {
                lemma_disk_fill_pixels(old_buf, buffer@, w, hh, cx, cy, rr, good, x, y);
            }
        }
    }
}

/// A disk fill of center `(cx, cy)` and radius `r` changes a pixel of the
/// canvas (by `good`) exactly when the pixel lies in the half-open square
/// `[cx - r, cx + r) x [cy - r, cy + r)` and its squared distance to the
/// center is at most `r * r`; it leaves every other pixel as it was. In
/// particular, for `r > 0` the pixel `(cx - r, cy)`, at distance exactly `r`,
/// is changed, and the pixel `(cx, cy)` is changed.
pub proof fn lemma_disk_fill_pixels<C>(
    old: Seq<C>,
    new: Seq<C>,
    w: usize,
    h: usize,
    cx: int,
    cy: int,
    r: int,
    good: spec_fn(C, C) -> bool,
    x: int,
    y: int,
)
    requires
        painted_as(old, new, w, h, |px: int, py: int| in_disk(cx, cy, r, px, py), good),
        in_canvas(w, h, x, y),
        pixel_index(w, x, y) < old.len(),
    ensures
        cx - r <= x < cx + r && cy - r <= y < cy + r && (x - cx) * (x - cx) + (y - cy) * (y - cy) <= r * r
            ==> good(old[pixel_index(w, x, y)], new[pixel_index(w, x, y)]),
        !(cx - r <= x < cx + r && cy - r <= y < cy + r && (x - cx) * (x - cx) + (y - cy) * (y - cy) <= r * r)
            ==> new[pixel_index(w, x, y)] == old[pixel_index(w, x, y)],
        r > 0 && x == cx - r && y == cy ==> good(old[pixel_index(w, x, y)], new[pixel_index(w, x, y)]),
        r > 0 && x == cx && y == cy ==> good(old[pixel_index(w, x, y)], new[pixel_index(w, x, y)]),
{
    let k = pixel_index(w, x, y);
    assert(y * (w as int) >= 0) by (nonlinear_arith)
        requires
            y >= 0,
    ;
    lemma_index_injective(w, h, x, y, k);
    assert(0 <= k < old.len());
    let _ = new[k];
    if r > 0 && x == cx - r && y == cy {
        assert((x - cx) * (x - cx) == r * r) by (nonlinear_arith)
            requires
                x == cx - r,
        ;
    }
    if r > 0 && x == cx && y == cy {
        assert(0 <= r * r) by (nonlinear_arith);
    }
}

/// Half of `s`, rounded toward zero as 32-bit division rounds.
pub open spec fn half_toward_zero(s: int) -> int {
    if s >= 0 { s / 2 } else { -((-s) / 2) }
}

/// The corners of a square with the given center and side are `d` away from
/// the center on each axis, with `d` half the side rounded toward zero; they
/// fit in 32 bits.
pub open spec fn square_ok(cx: int, cy: int, side: int) -> bool {
    let d = half_toward_zero(side);
    fits_i32(cx - d) && fits_i32(cx + d) && fits_i32(cy - d) && fits_i32(cy + d)
}

impl<C: Copy> Quad<C> {
    /// The two triangles a filled quad is drawn as: vertices 0, 1, 2 and
    /// vertices 2, 3, 0, both in the quad's color.
    pub fn triangles(&self) -> (r: (Triangle<C>, Triangle<C>))
        ensures
            r.0.vertices[0] == (self.vertices[0].e[0], self.vertices[0].e[1]),
            r.0.vertices[1] == (self.vertices[1].e[0], self.vertices[1].e[1]),
            r.0.vertices[2] == (self.vertices[2].e[0], self.vertices[2].e[1]),
            r.1.vertices[0] == (self.vertices[2].e[0], self.vertices[2].e[1]),
            r.1.vertices[1] == (self.vertices[3].e[0], self.vertices[3].e[1]),
            r.1.vertices[2] == (self.vertices[0].e[0], self.vertices[0].e[1]),
            r.0.color == self.color,
            r.1.color == self.color,
    {
        let v_list = self.vertices;
        let tri1 = Triangle {
            vertices: [(v_list[0].x(), v_list[0].y()), (v_list[1].x(), v_list[1].y()), (v_list[2].x(), v_list[2].y())],
            color: self.color,
        };
        let tri2 = Triangle {
            vertices: [(v_list[2].x(), v_list[2].y()), (v_list[3].x(), v_list[3].y()), (v_list[0].x(), v_list[0].y())],
            color: self.color,
        };
        (tri1, tri2)
    }
}

impl<C: Copy> Square<C> {
    /// The square as a quad: its corners clockwise from the top-left one, each
    /// half the side (rounded toward zero) away from the center on both axes.
    pub fn quad(&self) -> (r: Quad<C>)
        requires
            square_ok(self.center.e[0] as int, self.center.e[1] as int, self.side_length as int),
        ensures
            ({
                let d = half_toward_zero(self.side_length as int);
                let cx = self.center.e[0] as int;
                let cy = self.center.e[1] as int;
                &&& r.vertices[0].e[0] == cx - d && r.vertices[0].e[1] == cy - d
                &&& r.vertices[1].e[0] == cx + d && r.vertices[1].e[1] == cy - d
                &&& r.vertices[2].e[0] == cx + d && r.vertices[2].e[1] == cy + d
                &&& r.vertices[3].e[0] == cx - d && r.vertices[3].e[1] == cy + d
            }),
            r.color == self.color,
    {
        let center = self.center;
        let dist_from_center = self.side_length / 2;
        assert(dist_from_center == half_toward_zero(self.side_length as int));
        let pos0 = Pos2::new(center.x() - dist_from_center, center.y() - dist_from_center);
        let pos1 = Pos2::new(center.x() + dist_from_center, center.y() - dist_from_center);
        let pos2 = Pos2::new(center.x() + dist_from_center, center.y() + dist_from_center);
        let pos3 = Pos2::new(center.x() - dist_from_center, center.y() + dist_from_center);
        Quad { vertices: [pos0, pos1, pos2, pos3], color: self.color }
    }
}

} // verus!
