//! The projector: turns ray-hit distances into vertical wall spans with
//! distance shading, and overlays the heads-up panels, all into an owned
//! character frame.  The frame is the whole output: presenting it on a real
//! display is the caller's affair.

use vstd::prelude::*;
use crate::level::{
    cell_char, div_trunc, trace_spec, Cell, Level, MAX_COORD, MAX_TRACE, SCALE, STEP,
};

verus! {

/// Hits nearer than this (milli-units) fill the whole column.
pub const VIEW_THRESHOLD: i64 = 200;

/// Screen coordinates and box sizes stay within this many cells.
pub const MAX_SCREEN: i64 = 1_000_000;

pub const CORNER_TL: char = '\u{250d}';

pub const CORNER_TR: char = '\u{2511}';

pub const CORNER_BL: char = '\u{2515}';

pub const CORNER_BR: char = '\u{2519}';

pub const HLINE: char = '\u{2501}';

pub const VLINE: char = '\u{2502}';

pub const SHADE_LIGHT: char = '\u{2591}';

pub const SHADE_MEDIUM: char = '\u{2592}';

pub const SHADE_DARK: char = '\u{2593}';

pub const MARKER: char = '\u{25cf}';

/// An owned screen of `w x h` character cells, row-major.
pub struct Frame {
    cells: Vec<char>,
    w: usize,
    h: usize,
}

impl Frame {
    /// One glyph per (row, column) pair: holds of every frame the library
    /// hands out, and every drawing operation preserves it.
    pub closed spec fn inv(self) -> bool {
        self.cells@.len() == self.w * self.h
    }

    /// Frame width in columns.
    pub closed spec fn width(self) -> int {
        self.w as int
    }

    /// Frame height in rows.
    pub closed spec fn height(self) -> int {
        self.h as int
    }

    /// The glyph at (row, column).
    pub closed spec fn at(self, r: int, c: int) -> char {
        self.cells@[r * self.w + c]
    }

    /// A fresh frame, every cell blank.
    pub fn new(w: usize, h: usize) -> (f: Frame)
        requires
            w * h <= usize::MAX,
        ensures
            f.inv(),
            f.width() == w,
            f.height() == h,
            forall|r: int, c: int| 0 <= r < h && 0 <= c < w ==> f.at(r, c) == ' ',
    {
        let total = w * h;
        let mut cells: Vec<char> = Vec::new();
        let mut i: usize = 0;
        while i < total
            invariant
                0 <= i <= total,
                cells@.len() == i,
                forall|k: int| 0 <= k < i ==> cells@[k] == ' ',
            decreases total - i,
        {
            cells.push(' ');
            i = i + 1;
        }
        let f = Frame { cells, w, h };
        proof {
            assert forall|r: int, c: int| 0 <= r < h && 0 <= c < w implies f.at(r, c) == ' ' by {
                assert(0 <= r * w + c < w * h) by (nonlinear_arith)
                    requires
                        0 <= r < h,
                        0 <= c < w,
                ;
            }
        }
        f
    }

    /// The frame dimensions, (columns, rows).
    pub fn size(&self) -> (s: (usize, usize))
        ensures
            s.0 == self.width(),
            s.1 == self.height(),
    {
        (self.w, self.h)
    }

    /// Reads one glyph.
    pub fn glyph(&self, r: usize, c: usize) -> (g: char)
        requires
            self.inv(),
            r < self.height(),
            c < self.width(),
        ensures
            g == self.at(r as int, c as int),
    {
        let n = self.cells.len();
        proof {
            assert(0 <= r * self.w + c < self.w * self.h) by (nonlinear_arith)
                requires
                    0 <= r < self.h,
                    0 <= c < self.w,
            ;
            assert(r * self.w + c < n);
        }
        self.cells[r * self.w + c]
    }

    /// Writes `g` at (row, column); coordinates outside the frame are
    /// silently ignored, as a terminal ignores writes past its edge.
    pub fn put(&mut self, r: i64, c: i64, g: char)
        requires
            old(self).inv(),
        ensures
            final(self).inv(),
            final(self).width() == old(self).width(),
            final(self).height() == old(self).height(),
            forall|rr: int, cc: int|
                0 <= rr < final(self).height() && 0 <= cc < final(self).width() ==> final(self).at(rr, cc) == (if rr == r && cc == c {
                    g
                } else {
                    old(self).at(rr, cc)
                }),
    {
        if r >= 0 && c >= 0 && (r as u64) < (self.h as u64) && (c as u64) < (self.w as u64) {
            let rr = r as usize;
            let cc = c as usize;
            let n = self.cells.len();
            proof {
                assert(0 <= rr * self.w + cc < self.w * self.h) by (nonlinear_arith)
                    requires
                        0 <= rr < self.h,
                        0 <= cc < self.w,
                ;
                assert(rr * self.w + cc < n);
            }
            let idx = rr * self.w + cc;
            self.cells.set(idx, g);
            proof {
                let w = self.w as int;
                assert forall|r2: int, c2: int|
                    0 <= r2 < self.height() && 0 <= c2 < self.width() implies self.at(r2, c2) == (
                if r2 == r && c2 == c {
                    g
                } else {
                    old(self).at(r2, c2)
                }) by {
                    assert((r2 * w + c2 == rr * w + cc) <==> (r2 == rr && c2 == cc))
                        by (nonlinear_arith)
                        requires
                            0 <= c2 < w,
                            0 <= cc < w,
                            0 <= r2,
                            0 <= rr,
                    ;
                    assert(0 <= r2 * w + c2 < w * self.h) by (nonlinear_arith)
                        requires
                            0 <= r2 < self.h,
                            0 <= c2 < w,
                    ;
                }
            }
        }
    }
}

/// Fills columns `[c0, c1)` of row `r` with `g`, clipped to the frame.
fn put_run(frame: &mut Frame, r: i64, c0: i64, c1: i64, g: char)
    requires
        old(frame).inv(),
        -MAX_SCREEN <= c0 <= MAX_SCREEN,
        -MAX_SCREEN <= c1 <= MAX_SCREEN,
    ensures
        final(frame).inv(),
        final(frame).width() == old(frame).width(),
        final(frame).height() == old(frame).height(),
        forall|rr: int, cc: int|
            0 <= rr < final(frame).height() && 0 <= cc < final(frame).width() ==> final(frame).at(rr, cc) == (if rr == r && c0 <= cc < c1 {
                g
            } else {
                old(frame).at(rr, cc)
            }),
{
    let mut c = c0;
    while c < c1
        invariant
            -MAX_SCREEN <= c0 <= MAX_SCREEN,
            -MAX_SCREEN <= c1 <= MAX_SCREEN,
            c0 <= c,
            c <= c1 || c == c0,
            c <= MAX_SCREEN,
            frame.inv(),
            frame.width() == old(frame).width(),
            frame.height() == old(frame).height(),
            forall|rr: int, cc: int|
                0 <= rr < frame.height() && 0 <= cc < frame.width() ==> frame.at(rr, cc) == (
                if rr == r && c0 <= cc < c {
                    g
                } else {
                    old(frame).at(rr, cc)
                }),
        decreases c1 - c,
    {
        frame.put(r, c, g);
        c = c + 1;
    }
}

/// Writes `text` left to right on row `r` starting at column `c0`, clipped
/// to the frame.
fn write_text(frame: &mut Frame, r: i64, c0: i64, text: &Vec<char>)
    requires
        old(frame).inv(),
        -MAX_SCREEN <= c0 <= MAX_SCREEN,
        text@.len() <= MAX_SCREEN,
    ensures
        final(frame).inv(),
        final(frame).width() == old(frame).width(),
        final(frame).height() == old(frame).height(),
        forall|rr: int, cc: int|
            0 <= rr < final(frame).height() && 0 <= cc < final(frame).width() ==> final(frame).at(rr, cc) == (if rr == r && c0 <= cc < c0 + text@.len() {
                text@[cc - c0]
            } else {
                old(frame).at(rr, cc)
            }),
{
    let n = text.len();
    let mut i: usize = 0;
    while i < n
        invariant
            0 <= i <= n,
            n == text@.len(),
            n <= MAX_SCREEN,
            -MAX_SCREEN <= c0 <= MAX_SCREEN,
            frame.inv(),
            frame.width() == old(frame).width(),
            frame.height() == old(frame).height(),
            forall|rr: int, cc: int|
                0 <= rr < frame.height() && 0 <= cc < frame.width() ==> frame.at(rr, cc) == (
                if rr == r && c0 <= cc < c0 + i {
                    text@[cc - c0]
                } else {
                    old(frame).at(rr, cc)
                }),
        decreases n - i,
    {
        frame.put(r, c0 + (i as i64), text[i]);
        i = i + 1;
    }
}

/// The vertical span a hit at distance `d` paints in a column of height
/// `screen_h`: an inverse-distance projection centred on the horizon, the
/// whole column for hits at or under `VIEW_THRESHOLD`.  Fractional rows are
/// truncated toward zero.
pub open spec fn span_spec(d: int, screen_h: int) -> (int, int) {
    if d > VIEW_THRESHOLD {
        (
            div_trunc(screen_h * (d - SCALE), 2 * d),
            div_trunc(screen_h * (d + SCALE), 2 * d),
        )
    } else {
        (0, screen_h)
    }
}

/// The shade for a hit at distance `d`: three buckets, farther is lighter.
pub open spec fn shade_spec(d: int) -> char {
    if d > 3 * (SCALE as int) {
        SHADE_LIGHT
    } else if d > (SCALE as int) + (SCALE as int) / 2 {
        SHADE_MEDIUM
    } else {
        SHADE_DARK
    }
}

/// Computes the wall span for a hit at distance `d` on a screen of
/// `screen_h` rows: the rows `[top, bottom]` inclusive are painted.
pub fn column_span(d: i64, screen_h: i64) -> (span: (i64, i64))
    requires
        0 <= d <= MAX_TRACE + STEP,
        0 <= screen_h <= MAX_SCREEN,
    ensures
        (span.0 as int, span.1 as int) == span_spec(d as int, screen_h as int),
{
    if d > VIEW_THRESHOLD {
        proof {
            assert(screen_h * (d - SCALE) <= 2_000_000_000_000_000_000) by (nonlinear_arith)
                requires
                    0 <= screen_h <= 1_000_000,
                    0 < d <= 1_000_000_000_200,
            ;
            assert(screen_h * (d - SCALE) >= -1_000_000_000) by (nonlinear_arith)
                requires
                    0 <= screen_h <= 1_000_000,
                    0 < d,
                    d - SCALE >= -1000,
            ;
            assert(screen_h * (d + SCALE) <= 2_000_000_000_000_000_000) by (nonlinear_arith)
                requires
                    0 <= screen_h <= 1_000_000,
                    0 < d <= 1_000_000_000_200,
            ;
            assert(screen_h * (d + SCALE) >= 0) by (nonlinear_arith)
                requires
                    0 <= screen_h,
                    0 < d + SCALE,
            ;
        }
        let top = crate::level::quot_trunc(screen_h * (d - SCALE), 2 * d);
        let bottom = crate::level::quot_trunc(screen_h * (d + SCALE), 2 * d);
        (top, bottom)
    } else {
        (0, screen_h)
    }
}

/// Picks the shade glyph for a hit at distance `d`.
pub fn shade(d: i64) -> (g: char)
    ensures
        g == shade_spec(d as int),
{
    if d > 3000 {
        SHADE_LIGHT
    } else if d > 1500 {
        SHADE_MEDIUM
    } else {
        SHADE_DARK
    }
}

/// The glyph a box drawn at (x, y) with interior-plus-border size
/// `(w + 1) x (h + 1)` paints at (r, c): corners, heavy horizontal edges,
/// light vertical edges, blank interior; `None` outside the box.
pub open spec fn box_glyph(x: int, y: int, w: int, h: int, r: int, c: int) -> Option<char> {
    if r == y && c == x {
        Some(CORNER_TL)
    } else if r == y && c == x + w {
        Some(CORNER_TR)
    } else if r == y + h && c == x {
        Some(CORNER_BL)
    } else if r == y + h && c == x + w {
        Some(CORNER_BR)
    } else if (r == y || r == y + h) && x < c < x + w {
        Some(HLINE)
    } else if y < r < y + h && (c == x || c == x + w) {
        Some(VLINE)
    } else if y < r < y + h && x < c < x + w {
        Some(' ')
    } else {
        None
    }
}

/// A boxed panel: draws the border and blanks the interior, touching
/// nothing else.
pub fn draw_box(frame: &mut Frame, x: i64, y: i64, w: i64, h: i64)
    requires
        1 <= w,
        1 <= h,
        -MAX_SCREEN <= x,
        -MAX_SCREEN <= y,
        x + w <= MAX_SCREEN,
        y + h <= MAX_SCREEN,
        old(frame).inv(),
    ensures
        final(frame).inv(),
        final(frame).width() == old(frame).width(),
        final(frame).height() == old(frame).height(),
        forall|rr: int, cc: int|
            0 <= rr < final(frame).height() && 0 <= cc < final(frame).width() ==> final(frame).at(rr, cc) == (match box_glyph(x as int, y as int, w as int, h as int, rr, cc) {
                Option::Some(g) => g,
                Option::None => old(frame).at(rr, cc),
            }),
{
    frame.put(y, x, CORNER_TL);
    put_run(frame, y, x + 1, x + w, HLINE);
    frame.put(y, x + w, CORNER_TR);
    let mut r = y + 1;
    while r < y + h
        invariant
            y + 1 <= r <= y + h,
            1 <= w,
            1 <= h,
            -MAX_SCREEN <= x,
            -MAX_SCREEN <= y,
            x + w <= MAX_SCREEN,
            y + h <= MAX_SCREEN,
            frame.inv(),
            frame.width() == old(frame).width(),
            frame.height() == old(frame).height(),
            forall|rr: int, cc: int|
                0 <= rr < frame.height() && 0 <= cc < frame.width() ==> frame.at(rr, cc) == (
                if rr < r {
                    match box_glyph(x as int, y as int, w as int, h as int, rr, cc) {
                        Option::Some(g) => g,
                        Option::None => old(frame).at(rr, cc),
                    }
                } else {
                    old(frame).at(rr, cc)
                }),
        decreases y + h - r,
    {
        frame.put(r, x, VLINE);
        put_run(frame, r, x + 1, x + w, ' ');
        frame.put(r, x + w, VLINE);
        r = r + 1;
    }
    frame.put(y + h, x, CORNER_BL);
    put_run(frame, y + h, x + 1, x + w, HLINE);
    frame.put(y + h, x + w, CORNER_BR);
}

/// The decimal digit character for `d` in `0 .. 10`.
pub open spec fn digit_char(d: int) -> char {
    if d == 0 {
        '0'
    } else if d == 1 {
        '1'
    } else if d == 2 {
        '2'
    } else if d == 3 {
        '3'
    } else if d == 4 {
        '4'
    } else if d == 5 {
        '5'
    } else if d == 6 {
        '6'
    } else if d == 7 {
        '7'
    } else if d == 8 {
        '8'
    } else {
        '9'
    }
}

/// The decimal digits of `n >= 0`, most significant first, without leading
/// zeros (a single `'0'` for zero).
pub open spec fn dec_digits(n: int) -> Seq<char>
    decreases n,
    via dec_digits_decreases
{
    if n < 10 {
        seq![digit_char(n)]
    } else {
        dec_digits(n / 10).push(digit_char(n % 10))
    }
}

#[via_fn]
proof fn dec_digits_decreases(n: int) {
    if n >= 10 {
        assert(0 <= n / 10 < n) by (nonlinear_arith)
            requires
                n >= 10,
        ;
    }
}

proof fn lemma_dec_digits_len(n: int, k: int)
    requires
        0 <= n,
        1 <= k,
        n < spec_pow10(k),
    ensures
        dec_digits(n).len() <= k,
    decreases k,
{
    if n >= 10 {
        assert(spec_pow10(k) == 10 * spec_pow10(k - 1));
        assert(n / 10 < spec_pow10(k - 1)) by (nonlinear_arith)
            requires
                0 <= n,
                n < 10 * spec_pow10(k - 1),
                0 < spec_pow10(k - 1),
        ;
        lemma_pow10_pos(k - 1);
        lemma_dec_digits_len(n / 10, k - 1);
    }
}

spec fn spec_pow10(k: int) -> int
    decreases k,
{
    if k <= 0 {
        1
    } else {
        10 * spec_pow10(k - 1)
    }
}

proof fn lemma_pow10_pos(k: int)
    ensures
        spec_pow10(k) > 0,
    decreases k,
{
    if k > 0 {
        lemma_pow10_pos(k - 1);
    }
}

/// A milli-unit value rendered with three decimal places, sign first and
/// fraction zero-padded, truncating toward zero.
pub open spec fn fixed_chars(v: int) -> Seq<char> {
    let m = if v >= 0 {
        v
    } else {
        -v
    };
    let sign: Seq<char> = if v < 0 {
        seq!['-']
    } else {
        Seq::empty()
    };
    sign + dec_digits(m / 1000) + seq![
        '.',
        digit_char(m % 1000 / 100),
        digit_char(m % 1000 / 10 % 10),
        digit_char(m % 10),
    ]
}

fn digit_glyph(d: u64) -> (g: char)
    requires
        d < 10,
    ensures
        g == digit_char(d as int),
{
    if d == 0 {
        '0'
    } else if d == 1 {
        '1'
    } else if d == 2 {
        '2'
    } else if d == 3 {
        '3'
    } else if d == 4 {
        '4'
    } else if d == 5 {
        '5'
    } else if d == 6 {
        '6'
    } else if d == 7 {
        '7'
    } else if d == 8 {
        '8'
    } else {
        '9'
    }
}

fn push_dec(out: &mut Vec<char>, n: u64)
    ensures
        final(out)@ == old(out)@ + dec_digits(n as int),
    decreases n,
{
    if n >= 10 {
        proof {
            assert(0 <= (n as int) / 10 < n) by (nonlinear_arith)
                requires
                    n >= 10,
            ;
        }
        push_dec(out, n / 10);
        let d = digit_glyph(n % 10);
        out.push(d);
        proof {
            assert(out@ =~= old(out)@ + dec_digits(n as int));
        }
    } else {
        let d = digit_glyph(n);
        out.push(d);
        proof {
            assert(out@ =~= old(out)@ + dec_digits(n as int));
        }
    }
}

/// Renders a milli-unit value with three decimal places, as `fixed_chars`
/// describes.
pub fn format_fixed(value: i64) -> (out: Vec<char>)
    requires
        -MAX_COORD <= value <= MAX_COORD,
    ensures
        out@ == fixed_chars(value as int),
        out@.len() <= 20,
{
    let mut out: Vec<char> = Vec::new();
    let m: u64 = if value < 0 {
        out.push('-');
        (-value) as u64
    } else {
        value as u64
    };
    push_dec(&mut out, m / 1000);
    out.push('.');
    out.push(digit_glyph(m % 1000 / 100));
    out.push(digit_glyph(m % 1000 / 10 % 10));
    out.push(digit_glyph(m % 10));
    proof {
        let v = value as int;
        let mi = if v >= 0 {
            v
        } else {
            -v
        };
        assert(mi == m as int);
        assert(spec_pow10(15) > 1_000_000_000) by {
            reveal_with_fuel(spec_pow10, 17);
        }
        lemma_dec_digits_len(mi / 1000, 15);
        assert(out@ =~= fixed_chars(v));
    }
    out
}

/// The glyph the grid minimap panel paints at (r, c): the framed grid with
/// the viewer's cell marked, at the screen's top-left corner; `None` outside
/// the panel.
pub open spec fn level_hud_glyph(
    cells: Seq<Cell>,
    lw: int,
    lh: int,
    x: int,
    y: int,
    r: int,
    c: int,
) -> Option<char> {
    if r == 2 + div_trunc(y, SCALE as int) && c == 2 + div_trunc(x, SCALE as int) {
        Some(MARKER)
    } else if 2 <= r < 2 + lh && 2 <= c < 2 + lw {
        Some(cell_char(cells[(r - 2) * lw + (c - 2)]))
    } else {
        box_glyph(1, 1, lw + 1, lh + 1, r, c)
    }
}

/// The glyph the numeric-pose panel paints at (r, c): a fixed-size box near
/// the screen's top-right corner holding the pose, one reading per row;
/// `None` outside the panel.
pub open spec fn debug_hud_glyph(
    frame_w: int,
    x: int,
    y: int,
    angle: int,
    r: int,
    c: int,
) -> Option<char> {
    let bx = frame_w - 18;
    let lx = seq!['x', ' ', '=', ' '] + fixed_chars(x);
    let ly = seq!['y', ' ', '=', ' '] + fixed_chars(y);
    let la = seq!['a', 'n', 'g', 'l', 'e', ' ', '=', ' '] + fixed_chars(angle);
    if r == 2 && bx + 1 <= c < bx + 1 + lx.len() {
        Some(lx[c - (bx + 1)])
    } else if r == 3 && bx + 1 <= c < bx + 1 + ly.len() {
        Some(ly[c - (bx + 1)])
    } else if r == 4 && bx + 1 <= c < bx + 1 + la.len() {
        Some(la[c - (bx + 1)])
    } else {
        box_glyph(bx, 1, 15, 4, r, c)
    }
}

/// Both overlay panels together; the numeric panel is drawn last and wins
/// where they overlap.
pub open spec fn hud_glyph(
    cells: Seq<Cell>,
    lw: int,
    lh: int,
    x: int,
    y: int,
    angle: int,
    frame_w: int,
    r: int,
    c: int,
) -> Option<char> {
    match debug_hud_glyph(frame_w, x, y, angle, r, c) {
        Option::Some(g) => Some(g),
        Option::None => level_hud_glyph(cells, lw, lh, x, y, r, c),
    }
}

/// The glyph one cast ray paints in its column at row `r`: the shade of the
/// hit over the projected span, nothing on a miss.
pub open spec fn wall_glyph(
    cells: Seq<Cell>,
    lw: int,
    lh: int,
    x: int,
    y: int,
    dx: int,
    dy: int,
    view_dist: int,
    screen_h: int,
    r: int,
) -> Option<char> {
    match trace_spec(cells, lw, lh, x, y, dx, dy, view_dist) {
        Option::None => None,
        Option::Some(d) => {
            let span = span_spec(d, screen_h);
            if span.0 <= r <= span.1 {
                Some(shade_spec(d))
            } else {
                None
            }
        },
    }
}

/// One whole rendered frame, cell by cell: per-column wall fill under the
/// optional overlay panels, blank where a ray misses.
pub open spec fn rendered_glyph(
    cells: Seq<Cell>,
    lw: int,
    lh: int,
    x: int,
    y: int,
    angle: int,
    dirs: Seq<(i64, i64)>,
    view_dist: int,
    frame_w: int,
    frame_h: int,
    with_hud: bool,
    r: int,
    c: int,
) -> char {
    let base = match wall_glyph(
        cells,
        lw,
        lh,
        x,
        y,
        dirs[c].0 as int,
        dirs[c].1 as int,
        view_dist,
        frame_h,
        r,
    ) {
        Option::Some(g) => g,
        Option::None => ' ',
    };
    if with_hud {
        match hud_glyph(cells, lw, lh, x, y, angle, frame_w, r, c) {
            Option::Some(g) => g,
            Option::None => base,
        }
    } else {
        base
    }
}

/// The projector: a field of view in milliradians and the farthest ray
/// march in milli-units.  The direction vector of each screen column is
/// trigonometry over the field of view and stays with the caller.
pub struct Renderer {
    /// Field of view, milliradians.
    pub fov: i64,
    /// Farthest ray march, milli-units.
    pub view_dist: i64,
}

/// The heading swept for screen column `c`: the sweep starts half the field
/// of view left of the viewer's heading and advances one `fov / screen_w`
/// share per column, all in milliradians truncated toward zero.
pub open spec fn column_angle_spec(angle: int, fov: int, screen_w: int, c: int) -> int {
    angle - fov / 2 + div_trunc(c * fov, screen_w)
}

impl Renderer {
    /// A projector with the given field of view and view distance.
    pub fn new(fov: i64, view_dist: i64) -> (r: Renderer)
        ensures
            r.fov == fov,
            r.view_dist == view_dist,
    {
        Renderer { fov, view_dist }
    }

    /// The heading of screen column `c`, in milliradians, sweeping this
    /// projector's field of view centred on `angle`.  The caller turns each
    /// heading into a direction vector for [`Renderer::render`].
    pub fn column_angle(&self, angle: i64, c: usize, screen_w: usize) -> (a: i64)
        requires
            0 <= self.fov <= MAX_SCREEN,
            -MAX_COORD <= angle <= MAX_COORD,
            0 < screen_w,
            screen_w <= MAX_SCREEN,
            c < screen_w,
        ensures
            a == column_angle_spec(angle as int, self.fov as int, screen_w as int, c as int),
    {
        let half = ((self.fov as u64) / 2) as i64;
        proof {
            assert(0 <= (c as int) * (self.fov as int) <= 1_000_000_000_000)
                by (nonlinear_arith)
                requires
                    0 <= c < 1_000_000,
                    0 <= self.fov <= 1_000_000,
            ;
        }
        let offset = crate::level::quot_trunc((c as i64) * self.fov, screen_w as i64);
        angle - half + offset
    }

    /// Overlays the grid minimap panel with the viewer's cell marked.
    pub fn level_hud(frame: &mut Frame, level: &Level, x: i64, y: i64)
        requires
            old(frame).inv(),
            level.width() <= 999_000,
            level.height() <= 999_000,
            -MAX_COORD <= x <= MAX_COORD,
            -MAX_COORD <= y <= MAX_COORD,
        ensures
            final(frame).inv(),
            final(frame).width() == old(frame).width(),
            final(frame).height() == old(frame).height(),
            forall|rr: int, cc: int|
                0 <= rr < final(frame).height() && 0 <= cc < final(frame).width() ==> final(frame).at(rr, cc) == (match level_hud_glyph(
                    level.grid(),
                    level.width(),
                    level.height(),
                    x as int,
                    y as int,
                    rr,
                    cc,
                ) {
                    Option::Some(g) => g,
                    Option::None => old(frame).at(rr, cc),
                }),
    {
        let size = level.size();
        let lw = size.w;
        let lh = size.h;
        draw_box(frame, 1, 1, lw as i64 + 1, lh as i64 + 1);
        let ghost boxed = *frame;
        let mut row: usize = 0;
        while row < lh
            invariant
                frame.inv(),
                frame.width() == boxed.width(),
                frame.height() == boxed.height(),
                boxed.inv(),
                lw == level.width(),
                lh == level.height(),
                lw <= 999_000,
                lh <= 999_000,
                0 <= row <= lh,
                forall|rr: int, cc: int|
                    0 <= rr < frame.height() && 0 <= cc < frame.width() ==> frame.at(rr, cc) == (
                    if 2 <= rr < 2 + row && 2 <= cc < 2 + lw {
                        cell_char(level.grid()[(rr - 2) * lw + (cc - 2)])
                    } else {
                        boxed.at(rr, cc)
                    }),
            decreases lh - row,
        {
            let mut col: usize = 0;
            while col < lw
                invariant
                    frame.inv(),
                    frame.width() == boxed.width(),
                    frame.height() == boxed.height(),
                    boxed.inv(),
                    lw == level.width(),
                    lh == level.height(),
                    lw <= 999_000,
                    lh <= 999_000,
                    0 <= row < lh,
                    0 <= col <= lw,
                    forall|rr: int, cc: int|
                        0 <= rr < frame.height() && 0 <= cc < frame.width() ==> frame.at(rr, cc)
                            == (if 2 <= rr < 2 + row && 2 <= cc < 2 + lw {
                            cell_char(level.grid()[(rr - 2) * lw + (cc - 2)])
                        } else if rr == 2 + row && 2 <= cc < 2 + col {
                            cell_char(level.grid()[(rr - 2) * lw + (cc - 2)])
                        } else {
                            boxed.at(rr, cc)
                        }),
                decreases lw - col,
            {
                proof {
                    assert((col * (SCALE as int)) / (SCALE as int) == col) by (nonlinear_arith)
                        requires
                            0 <= col,
                    ;
                    assert((row * (SCALE as int)) / (SCALE as int) == row) by (nonlinear_arith)
                        requires
                            0 <= row,
                    ;
                }
                let cv = level.cell_at((col as i64) * SCALE, (row as i64) * SCALE);
                let g = if let Option::Some(Cell::Wall) = cv {
                    '#'
                } else {
                    ' '
                };
                proof {
                    assert(cv == Option::Some(level.grid()[row * lw + col]));
                    assert(g == cell_char(level.grid()[row * lw + col]));
                }
                frame.put(2 + row as i64, 2 + col as i64, g);
                col = col + 1;
            }
            row = row + 1;
        }
        let mx = crate::level::quot_trunc(x, SCALE);
        let my = crate::level::quot_trunc(y, SCALE);
        frame.put(2 + my, 2 + mx, MARKER);
    }

    /// Overlays the numeric-pose panel: the viewer's position and heading,
    /// three decimal places each.
    pub fn debug_hud(frame: &mut Frame, x: i64, y: i64, angle: i64)
        requires
            old(frame).inv(),
            old(frame).width() <= MAX_SCREEN,
            -MAX_COORD <= x <= MAX_COORD,
            -MAX_COORD <= y <= MAX_COORD,
            -MAX_COORD <= angle <= MAX_COORD,
        ensures
            final(frame).inv(),
            final(frame).width() == old(frame).width(),
            final(frame).height() == old(frame).height(),
            forall|rr: int, cc: int|
                0 <= rr < final(frame).height() && 0 <= cc < final(frame).width() ==> final(frame).at(rr, cc) == (match debug_hud_glyph(
                    old(frame).width(),
                    x as int,
                    y as int,
                    angle as int,
                    rr,
                    cc,
                ) {
                    Option::Some(g) => g,
                    Option::None => old(frame).at(rr, cc),
                }),
    {
        let (fw, _fh) = frame.size();
        let bx = fw as i64 - 18;
        draw_box(frame, bx, 1, 15, 4);
        let mut lx: Vec<char> = Vec::new();
        lx.push('x');
        lx.push(' ');
        lx.push('=');
        lx.push(' ');
        let mut vx = format_fixed(x);
        lx.append(&mut vx);
        proof {
            assert(lx@ =~= seq!['x', ' ', '=', ' '] + fixed_chars(x as int));
        }
        write_text(frame, 2, bx + 1, &lx);
        let mut ly: Vec<char> = Vec::new();
        ly.push('y');
        ly.push(' ');
        ly.push('=');
        ly.push(' ');
        let mut vy = format_fixed(y);
        ly.append(&mut vy);
        proof {
            assert(ly@ =~= seq!['y', ' ', '=', ' '] + fixed_chars(y as int));
        }
        write_text(frame, 3, bx + 1, &ly);
        let mut la: Vec<char> = Vec::new();
        la.push('a');
        la.push('n');
        la.push('g');
        la.push('l');
        la.push('e');
        la.push(' ');
        la.push('=');
        la.push(' ');
        let mut va = format_fixed(angle);
        la.append(&mut va);
        proof {
            assert(la@ =~= seq!['a', 'n', 'g', 'l', 'e', ' ', '=', ' '] + fixed_chars(
                angle as int,
            ));
        }
        write_text(frame, 4, bx + 1, &la);
    }

    /// Renders one whole frame of `screen_w x screen_h` cells: one ray per
    /// screen column along its direction in `dirs`, each hit painted as a
    /// shaded vertical span, then the overlay panels if `with_hud` is set.
    /// The caller computes `dirs` from the pose and the field of view, one
    /// scaled unit vector per column.
    pub fn render(
        &self,
        level: &Level,
        x: i64,
        y: i64,
        angle: i64,
        dirs: &Vec<(i64, i64)>,
        screen_w: usize,
        screen_h: usize,
        with_hud: bool,
    ) -> (frame: Frame)
        requires
            dirs@.len() == screen_w,
            forall|i: int|
                0 <= i < dirs@.len() ==> -SCALE <= (#[trigger] dirs@[i]).0 <= SCALE && -SCALE
                    <= dirs@[i].1 <= SCALE,
            -MAX_COORD <= x <= MAX_COORD,
            -MAX_COORD <= y <= MAX_COORD,
            -MAX_COORD <= angle <= MAX_COORD,
            self.view_dist <= MAX_TRACE,
            screen_w * screen_h <= usize::MAX,
            screen_w <= MAX_SCREEN,
            screen_h <= MAX_SCREEN,
            with_hud ==> level.width() <= 999_000 && level.height() <= 999_000,
        ensures
            frame.inv(),
            frame.width() == screen_w,
            frame.height() == screen_h,
            forall|r: int, c: int|
                0 <= r < screen_h && 0 <= c < screen_w ==> frame.at(r, c) == rendered_glyph(
                    level.grid(),
                    level.width(),
                    level.height(),
                    x as int,
                    y as int,
                    angle as int,
                    dirs@,
                    self.view_dist as int,
                    screen_w as int,
                    screen_h as int,
                    with_hud,
                    r,
                    c,
                ),
    {
        let ghost cells = level.grid();
        let ghost lw = level.width();
        let ghost lh = level.height();
        let mut frame = Frame::new(screen_w, screen_h);
        let view_dist = self.view_dist;
        let mut cx: usize = 0;
        while cx < screen_w
            invariant
                frame.inv(),
                frame.width() == screen_w,
                frame.height() == screen_h,
                cells == level.grid(),
                lw == level.width(),
                lh == level.height(),
                dirs@.len() == screen_w,
                forall|i: int|
                    0 <= i < dirs@.len() ==> -SCALE <= (#[trigger] dirs@[i]).0 <= SCALE && -SCALE
                        <= dirs@[i].1 <= SCALE,
                -MAX_COORD <= x <= MAX_COORD,
                -MAX_COORD <= y <= MAX_COORD,
                view_dist <= MAX_TRACE,
                screen_w <= MAX_SCREEN,
                screen_h <= MAX_SCREEN,
                0 <= cx <= screen_w,
                forall|r: int, c: int|
                    0 <= r < screen_h && 0 <= c < screen_w ==> frame.at(r, c) == (if c < cx {
                        match wall_glyph(
                            cells,
                            lw,
                            lh,
                            x as int,
                            y as int,
                            dirs@[c].0 as int,
                            dirs@[c].1 as int,
                            view_dist as int,
                            screen_h as int,
                            r,
                        ) {
                            Option::Some(g) => g,
                            Option::None => ' ',
                        }
                    } else {
                        ' '
                    }),
            decreases screen_w - cx,
        {
            let dir = dirs[cx];
            let hit = level.raytrace(x, y, dir.0, dir.1, view_dist);
            if let Option::Some(d) = hit {
                let span = column_span(d, screen_h as i64);
                let g = shade(d);
                let mut rr: usize = 0;
                while rr < screen_h
                    invariant
                        frame.inv(),
                        frame.width() == screen_w,
                        frame.height() == screen_h,
                        cells == level.grid(),
                        lw == level.width(),
                        lh == level.height(),
                        dirs@.len() == screen_w,
                        forall|i: int|
                            0 <= i < dirs@.len() ==> -SCALE <= (#[trigger] dirs@[i]).0 <= SCALE
                                && -SCALE <= dirs@[i].1 <= SCALE,
                        screen_w <= MAX_SCREEN,
                        screen_h <= MAX_SCREEN,
                        0 <= cx < screen_w,
                        0 <= rr <= screen_h,
                        dir == dirs@[cx as int],
                        trace_spec(
                            cells,
                            lw,
                            lh,
                            x as int,
                            y as int,
                            dir.0 as int,
                            dir.1 as int,
                            view_dist as int,
                        ) == Some(d as int),
                        (span.0 as int, span.1 as int) == span_spec(d as int, screen_h as int),
                        g == shade_spec(d as int),
                        forall|r: int, c: int|
                            0 <= r < screen_h && 0 <= c < screen_w ==> frame.at(r, c) == (if c < cx {
                                match wall_glyph(
                                    cells,
                                    lw,
                                    lh,
                                    x as int,
                                    y as int,
                                    dirs@[c].0 as int,
                                    dirs@[c].1 as int,
                                    view_dist as int,
                                    screen_h as int,
                                    r,
                                ) {
                                    Option::Some(g2) => g2,
                                    Option::None => ' ',
                                }
                            } else if c == cx && r < rr && span.0 <= r <= span.1 {
                                g
                            } else {
                                ' '
                            }),
                    decreases screen_h - rr,
                {
                    if span.0 <= rr as i64 && (rr as i64) <= span.1 {
                        frame.put(rr as i64, cx as i64, g);
                    }
                    rr = rr + 1;
                }
                proof {
                    assert forall|r: int, c: int|
                        0 <= r < screen_h && 0 <= c < screen_w implies frame.at(r, c) == (if c
                        < cx + 1 {
                        match wall_glyph(
                            cells,
                            lw,
                            lh,
                            x as int,
                            y as int,
                            dirs@[c].0 as int,
                            dirs@[c].1 as int,
                            view_dist as int,
                            screen_h as int,
                            r,
                        ) {
                            Option::Some(g2) => g2,
                            Option::None => ' ',
                        }
                    } else {
                        ' '
                    }) by {}
                }
            } else {
                proof {
                    assert forall|r: int, c: int|
                        0 <= r < screen_h && 0 <= c < screen_w implies frame.at(r, c) == (if c
                        < cx + 1 {
                        match wall_glyph(
                            cells,
                            lw,
                            lh,
                            x as int,
                            y as int,
                            dirs@[c].0 as int,
                            dirs@[c].1 as int,
                            view_dist as int,
                            screen_h as int,
                            r,
                        ) {
                            Option::Some(g2) => g2,
                            Option::None => ' ',
                        }
                    } else {
                        ' '
                    }) by {}
                }
            }
            cx = cx + 1;
        }
        if with_hud {
            Renderer::level_hud(&mut frame, level, x, y);
            Renderer::debug_hud(&mut frame, x, y, angle);
            proof {
                assert forall|r: int, c: int|
                    0 <= r < screen_h && 0 <= c < screen_w implies frame.at(r, c)
                        == rendered_glyph(
                        cells,
                        lw,
                        lh,
                        x as int,
                        y as int,
                        angle as int,
                        dirs@,
                        view_dist as int,
                        screen_w as int,
                        screen_h as int,
                        with_hud,
                        r,
                        c,
                    ) by {}
            }
        }
        frame
    }
}

} // verus!
