//! The grid data model: a flat row-major buffer of wall/open cells, its
//! textual loader and serializer, point queries and fixed-step ray marching.
//!
//! Coordinates are fixed-point: one grid unit is `SCALE` milli-units, so the
//! cell that contains a point is found by dividing each coordinate by `SCALE`
//! (truncating toward zero).  A ray advances in steps of `STEP` milli-units.

use vstd::prelude::*;

verus! {

/// Milli-units per grid unit.
pub const SCALE: i64 = 1000;

/// Ray-march step: one fifth of a grid unit, in milli-units.
pub const STEP: i64 = 200;

/// Largest ray origin coordinate (either sign), in milli-units.
pub const MAX_COORD: i64 = 1_000_000_000_000;

/// Largest ray length, in milli-units.  Stands in for an unbounded trace.
pub const MAX_TRACE: i64 = 1_000_000_000_000;

/// One cell of the grid: passable or solid.
#[derive(Clone, Copy, Debug, PartialEq, Eq, Structural)]
pub enum Cell {
    Open,
    Wall,
}

/// Grid dimensions in cells.
#[derive(Clone, Copy, Debug, PartialEq, Eq, Structural)]
pub struct Size {
    pub w: usize,
    pub h: usize,
}

/// Why a textual map failed to load.  Rows and columns are 1-based.
#[derive(Clone, Copy, Debug, PartialEq, Eq, Structural)]
pub enum LoadError {
    /// The source held no lines at all.
    Empty,
    /// A line's length disagreed with the first line's.
    NonRect(usize),
    /// A character other than `'#'` or `' '` at (row, column).
    InvalidChar(usize, usize),
}

/// The loaded grid: a flat row-major cell buffer and its dimensions.
/// Immutable after construction; built only by [`Level::load`].
pub struct Level {
    cells: Vec<Cell>,
    size: Size,
}

/// The character that denotes `c` in the textual map format.
pub open spec fn cell_char(c: Cell) -> char {
    if c is Wall {
        '#'
    } else {
        ' '
    }
}

/// Whether `c` belongs to the map alphabet.
pub open spec fn valid_char(c: char) -> bool {
    c == '#' || c == ' '
}

/// The cell a map character stands for (meaningful only for valid characters).
pub open spec fn char_cell(c: char) -> Cell {
    if c == '#' {
        Cell::Wall
    } else {
        Cell::Open
    }
}

/// Integer division truncating toward zero, as the fixed-point queries round.
pub open spec fn div_trunc(a: int, b: int) -> int {
    if a >= 0 {
        a / b
    } else {
        -((-a) / b)
    }
}

/// The cell lookup: coordinates in milli-units, truncated toward zero to cell
/// indices; `None` for any point outside `[0, w) x [0, h)` grid units.
pub open spec fn cell_at_spec(cells: Seq<Cell>, w: int, h: int, x: int, y: int) -> Option<Cell> {
    if x >= 0 && y >= 0 && x / (SCALE as int) < w && y / (SCALE as int) < h {
        Some(cells[(y / (SCALE as int)) * w + x / (SCALE as int)])
    } else {
        None
    }
}

/// One fixed-point ray march, from step distance `dist` on: at each step the
/// sample point is `origin + dir * dist / SCALE` (each product truncated
/// toward zero).  A `Wall` cell ends the march with the marched distance; a
/// point outside the grid ends it with no hit, as does passing `max`.
pub open spec fn trace_from(
    cells: Seq<Cell>,
    w: int,
    h: int,
    x: int,
    y: int,
    dx: int,
    dy: int,
    max: int,
    dist: int,
) -> Option<int>
    decreases max + STEP - dist,
{
    if dist > max {
        None
    } else {
        let tx = x + div_trunc(dx * dist, SCALE as int);
        let ty = y + div_trunc(dy * dist, SCALE as int);
        match cell_at_spec(cells, w, h, tx, ty) {
            Option::None => None,
            Option::Some(c) => if c is Wall {
                Some(dist)
            } else {
                trace_from(cells, w, h, x, y, dx, dy, max, dist + STEP)
            },
        }
    }
}

/// A whole ray march from distance zero.
pub open spec fn trace_spec(
    cells: Seq<Cell>,
    w: int,
    h: int,
    x: int,
    y: int,
    dx: int,
    dy: int,
    max: int,
) -> Option<int> {
    trace_from(cells, w, h, x, y, dx, dy, max, 0)
}

/// The index of the first newline in `s`, or `s.len()` if there is none.
pub open spec fn first_newline(s: Seq<char>) -> int
    decreases s.len(),
{
    if s.len() == 0 {
        0
    } else if s[0] == '\n' {
        0
    } else {
        1 + first_newline(s.drop_first())
    }
}

/// The lines of `s`: the maximal newline-free runs, where each `'\n'` ends a
/// line.  A trailing newline therefore adds no extra empty line, and an empty
/// text has no lines at all.
pub open spec fn split_lines(s: Seq<char>) -> Seq<Seq<char>>
    decreases s.len(),
    via split_lines_decreases
{
    if s.len() == 0 {
        Seq::empty()
    } else {
        let i = first_newline(s);
        if i == s.len() {
            seq![s]
        } else {
            seq![s.take(i)] + split_lines(s.skip(i + 1))
        }
    }
}

/// The lines joined back with single newlines and no trailing newline.
pub open spec fn join_lines(ls: Seq<Seq<char>>) -> Seq<char>
    decreases ls.len(),
{
    if ls.len() == 0 {
        Seq::empty()
    } else if ls.len() == 1 {
        ls[0]
    } else {
        ls[0] + seq!['\n'] + join_lines(ls.drop_first())
    }
}

#[via_fn]
proof fn split_lines_decreases(s: Seq<char>) {
    lemma_first_newline(s);
}

proof fn lemma_first_newline(s: Seq<char>)
    ensures
        0 <= first_newline(s) <= s.len(),
        forall|j: int| 0 <= j < first_newline(s) ==> s[j] != '\n',
        first_newline(s) < s.len() ==> s[first_newline(s)] == '\n',
    decreases s.len(),
{
    if s.len() > 0 && s[0] != '\n' {
        lemma_first_newline(s.drop_first());
        assert forall|j: int| 0 <= j < first_newline(s) implies s[j] != '\n' by {
            if j > 0 {
                assert(s.drop_first()[j - 1] == s[j]);
            }
        }
    }
}

/// A newline-free prefix before an explicit newline makes up the first line.
proof fn lemma_split_prepend(a: Seq<char>, r: Seq<char>)
    requires
        forall|j: int| 0 <= j < a.len() ==> a[j] != '\n',
    ensures
        split_lines(a + seq!['\n'] + r) == seq![a] + split_lines(r),
    decreases a.len(),
{
    let s = a + seq!['\n'] + r;
    assert(s.len() == a.len() + 1 + r.len());
    assert forall|j: int| 0 <= j < a.len() implies s[j] != '\n' by {
        assert(s[j] == a[j]);
    }
    assert(s[a.len() as int] == '\n');
    lemma_first_newline(s);
    if first_newline(s) < a.len() {
        assert(s[first_newline(s)] == '\n');
        assert(false);
    }
    assert(first_newline(s) == a.len());
    assert(s.take(a.len() as int) =~= a);
    assert(s.skip(a.len() as int + 1) =~= r);
}

/// A nonempty newline-free text is a single line.
proof fn lemma_split_single(a: Seq<char>)
    requires
        a.len() > 0,
        forall|j: int| 0 <= j < a.len() ==> a[j] != '\n',
    ensures
        split_lines(a) == seq![a],
{
    lemma_first_newline(a);
    if first_newline(a) < a.len() {
        assert(false);
    }
}

/// Whether every character of the line is in the map alphabet.
pub open spec fn line_ok(l: Seq<char>) -> bool {
    forall|j: int| 0 <= j < l.len() ==> valid_char(l[j])
}

/// The index of the first character outside the alphabet, or `l.len()`.
pub open spec fn first_bad_char(l: Seq<char>) -> int
    decreases l.len(),
{
    if l.len() == 0 {
        0
    } else if !valid_char(l[0]) {
        0
    } else {
        1 + first_bad_char(l.drop_first())
    }
}

/// Whether line `i` passes validation: every line after the first must have
/// the first line's length, and every character must be `'#'` or `' '`.
pub open spec fn row_ok(ls: Seq<Seq<char>>, cols: int, i: int) -> bool {
    &&& (i == 0 || ls[i].len() == cols)
    &&& line_ok(ls[i])
}

/// The error reported for a failing line: a length mismatch outranks a bad
/// character, and rows and columns are reported 1-based.
pub open spec fn row_err(ls: Seq<Seq<char>>, cols: int, i: int) -> LoadError {
    if i > 0 && ls[i].len() != cols {
        LoadError::NonRect((i + 1) as usize)
    } else {
        LoadError::InvalidChar((i + 1) as usize, (first_bad_char(ls[i]) + 1) as usize)
    }
}

/// The index of the first failing line at or after `i`, or `ls.len()`.
pub open spec fn first_bad_row(ls: Seq<Seq<char>>, cols: int, i: int) -> int
    decreases ls.len() - i,
{
    if i < 0 || i >= ls.len() {
        ls.len() as int
    } else if !row_ok(ls, cols, i) {
        i
    } else {
        first_bad_row(ls, cols, i + 1)
    }
}

/// The cells a valid line loads to, in order.
pub open spec fn row_cells(l: Seq<char>) -> Seq<Cell> {
    l.map_values(|c: char| char_cell(c))
}

/// The flat row-major buffer the lines load to.
pub open spec fn cells_of_lines(ls: Seq<Seq<char>>) -> Seq<Cell>
    decreases ls.len(),
{
    if ls.len() == 0 {
        Seq::empty()
    } else {
        row_cells(ls[0]) + cells_of_lines(ls.drop_first())
    }
}

proof fn lemma_cells_of_lines_snoc(ls: Seq<Seq<char>>, l: Seq<char>)
    ensures
        cells_of_lines(ls.push(l)) == cells_of_lines(ls) + row_cells(l),
    decreases ls.len(),
{
    let p = ls.push(l);
    if ls.len() == 0 {
        assert(p[0] == l);
        assert(p.drop_first() =~= Seq::<Seq<char>>::empty());
        assert(cells_of_lines(p.drop_first()) =~= Seq::<Cell>::empty());
        assert(cells_of_lines(ls) =~= Seq::<Cell>::empty());
        assert(cells_of_lines(p) =~= cells_of_lines(ls) + row_cells(l));
    } else {
        assert(p.drop_first() =~= ls.drop_first().push(l));
        lemma_cells_of_lines_snoc(ls.drop_first(), l);
        assert(p[0] == ls[0]);
        assert(cells_of_lines(p) == row_cells(ls[0]) + (cells_of_lines(ls.drop_first())
            + row_cells(l)));
        assert(row_cells(ls[0]) + (cells_of_lines(ls.drop_first()) + row_cells(l)) =~= (row_cells(
            ls[0],
        ) + cells_of_lines(ls.drop_first())) + row_cells(l));
    }
}

proof fn lemma_first_bad_char_at(l: Seq<char>, col: int)
    requires
        0 <= col < l.len(),
        forall|j: int| 0 <= j < col ==> valid_char(l[j]),
        !valid_char(l[col]),
    ensures
        first_bad_char(l) == col,
    decreases col,
{
    if col > 0 {
        assert forall|j: int| 0 <= j < col - 1 implies valid_char(l.drop_first()[j]) by {
            assert(l.drop_first()[j] == l[j + 1]);
        }
        assert(l.drop_first()[col - 1] == l[col]);
        lemma_first_bad_char_at(l.drop_first(), col - 1);
    }
}

/// Splits the text into its lines, as `split_lines` describes.
fn split_into_lines(chars: &Vec<char>) -> (lines: Vec<Vec<char>>)
    ensures
        lines@.map_values(|l: Vec<char>| l@) == split_lines(chars@),
{
    let n = chars.len();
    let mut lines: Vec<Vec<char>> = Vec::new();
    let mut cur: Vec<char> = Vec::new();
    let mut i: usize = 0;
    proof {
        assert(cur@ + chars@.skip(0) =~= chars@);
        assert(lines@.map_values(|l: Vec<char>| l@) + split_lines(chars@) =~= split_lines(
            chars@,
        ));
    }
    while i < n
        invariant
            n == chars@.len(),
            0 <= i <= n,
            forall|j: int| 0 <= j < cur@.len() ==> cur@[j] != '\n',
            lines@.map_values(|l: Vec<char>| l@) + split_lines(cur@ + chars@.skip(i as int))
                == split_lines(chars@),
        decreases n - i,
    {
        let c = chars[i];
        let ghost rest = chars@.skip(i as int);
        proof {
            assert(rest[0] == c);
            assert(rest.drop_first() =~= chars@.skip(i + 1));
        }
        if c == '\n' {
            proof {
                assert(cur@ + rest =~= cur@ + seq!['\n'] + chars@.skip(i + 1));
                lemma_split_prepend(cur@, chars@.skip(i + 1));
            }
            let ghost old_lines = lines@;
            let done = cur;
            cur = Vec::new();
            lines.push(done);
            proof {
                assert(lines@.map_values(|l: Vec<char>| l@) =~= old_lines.map_values(
                    |l: Vec<char>| l@,
                ).push(done@));
                assert(cur@ + chars@.skip(i + 1) =~= chars@.skip(i + 1));
                assert(old_lines.map_values(|l: Vec<char>| l@).push(done@) + split_lines(
                    chars@.skip(i + 1),
                ) =~= old_lines.map_values(|l: Vec<char>| l@) + (seq![done@] + split_lines(
                    chars@.skip(i + 1),
                )));
            }
        } else {
            let ghost old_cur = cur@;
            cur.push(c);
            proof {
                assert(cur@ + chars@.skip(i + 1) =~= old_cur + rest);
            }
        }
        i = i + 1;
    }
    proof {
        assert(cur@ + chars@.skip(n as int) =~= cur@);
    }
    if cur.len() > 0 {
        proof {
            lemma_split_single(cur@);
        }
        let ghost old_lines = lines@;
        let done = cur;
        lines.push(done);
        proof {
            assert(lines@.map_values(|l: Vec<char>| l@) =~= old_lines.map_values(
                |l: Vec<char>| l@,
            ).push(done@));
            assert(old_lines.map_values(|l: Vec<char>| l@).push(done@) =~= old_lines.map_values(
                |l: Vec<char>| l@,
            ) + seq![done@]);
        }
    }
    lines
}

/// The rows of a flat row-major buffer, each rendered as its map characters.
pub open spec fn rows_of(cells: Seq<Cell>, w: int, h: int) -> Seq<Seq<char>> {
    Seq::new(
        h as nat,
        |i: int| cells.subrange(i * w, i * w + w).map_values(|c: Cell| cell_char(c)),
    )
}

/// The textual form of a grid: its rows joined by single newlines, with no
/// trailing newline — the exact inverse of the loader's character mapping.
pub open spec fn serialize_spec(cells: Seq<Cell>, w: int, h: int) -> Seq<char> {
    join_lines(rows_of(cells, w, h))
}

proof fn lemma_join_snoc(ls: Seq<Seq<char>>, l: Seq<char>)
    ensures
        join_lines(ls.push(l)) == if ls.len() == 0 {
            l
        } else {
            join_lines(ls) + seq!['\n'] + l
        },
    decreases ls.len(),
{
    let p = ls.push(l);
    if ls.len() == 0 {
        assert(p[0] == l);
    } else if ls.len() == 1 {
        assert(p[0] == ls[0]);
        assert(p.drop_first() =~= seq![l]);
        assert(join_lines(seq![l]) == l);
    } else {
        assert(p.drop_first() =~= ls.drop_first().push(l));
        lemma_join_snoc(ls.drop_first(), l);
        assert(p[0] == ls[0]);
        assert(join_lines(p) == ls[0] + seq!['\n'] + (join_lines(ls.drop_first()) + seq!['\n']
            + l));
        assert(ls[0] + seq!['\n'] + (join_lines(ls.drop_first()) + seq!['\n'] + l) =~= (ls[0]
            + seq!['\n'] + join_lines(ls.drop_first())) + seq!['\n'] + l);
    }
}

/// Joining the split lines gives the text back, absent a trailing newline.
proof fn lemma_join_split(s: Seq<char>)
    requires
        s.len() > 0,
        s[s.len() - 1] != '\n',
    ensures
        join_lines(split_lines(s)) == s,
    decreases s.len(),
{
    lemma_first_newline(s);
    let i = first_newline(s);
    if i == s.len() {
    } else {
        let rest = s.skip(i + 1);
        assert(s[i] == '\n');
        assert(i < s.len() - 1);
        assert(rest.len() > 0);
        assert(rest[rest.len() - 1] == s[s.len() - 1]);
        lemma_join_split(rest);
        assert(split_lines(rest).len() >= 1);
        let ls = split_lines(s);
        assert(ls == seq![s.take(i)] + split_lines(rest));
        assert(ls.len() >= 2);
        assert(ls[0] == s.take(i));
        assert(ls.drop_first() =~= split_lines(rest));
        assert(join_lines(ls) == s.take(i) + seq!['\n'] + rest);
        assert(s.take(i) + seq!['\n'] + rest =~= s);
    }
}

proof fn lemma_cells_slice(ls: Seq<Seq<char>>, w: int, i: int)
    requires
        w >= 0,
        0 <= i < ls.len(),
        forall|k: int| 0 <= k < ls.len() ==> (#[trigger] ls[k]).len() == w,
    ensures
        cells_of_lines(ls).subrange(i * w, i * w + w) =~= row_cells(ls[i]),
    decreases i,
{
    lemma_cells_of_lines_len(ls, w);
    if i == 0 {
        assert(cells_of_lines(ls) == row_cells(ls[0]) + cells_of_lines(ls.drop_first()));
        assert(cells_of_lines(ls).subrange(0, w) =~= row_cells(ls[0]));
    } else {
        let tail = ls.drop_first();
        assert(forall|k: int|
            0 <= k < tail.len() ==> (#[trigger] tail[k]).len() == w) by {
            assert(forall|k: int| 0 <= k < tail.len() ==> tail[k] == ls[k + 1]);
        }
        lemma_cells_slice(tail, w, i - 1);
        assert(tail[i - 1] == ls[i]);
        assert((i - 1) * w == i * w - w) by (nonlinear_arith);
        assert(i * w >= w) by (nonlinear_arith)
            requires
                i >= 1,
                w >= 0,
        ;
        lemma_cells_of_lines_len(tail, w);
        assert(i * w + w <= (tail.len() + 1) * w) by (nonlinear_arith)
            requires
                i + 1 <= tail.len() + 1,
                w >= 0,
        ;
        assert((tail.len() + 1) * w == tail.len() * w + w) by (nonlinear_arith);
        let cells = cells_of_lines(ls);
        assert(cells == row_cells(ls[0]) + cells_of_lines(tail));
        assert(cells.subrange(i * w, i * w + w) =~= cells_of_lines(tail).subrange(
            i * w - w,
            i * w,
        ));
        assert(cells_of_lines(tail).subrange((i - 1) * w, (i - 1) * w + w) =~= row_cells(
            ls[i],
        ));
    }
}

proof fn lemma_cells_of_lines_len(ls: Seq<Seq<char>>, w: int)
    requires
        w >= 0,
        forall|k: int| 0 <= k < ls.len() ==> (#[trigger] ls[k]).len() == w,
    ensures
        cells_of_lines(ls).len() == ls.len() * w,
    decreases ls.len(),
{
    if ls.len() == 0 {
        assert(ls.len() * w == 0) by (nonlinear_arith)
            requires
                ls.len() == 0,
        ;
    } else {
        let tail = ls.drop_first();
        assert(forall|k: int|
            0 <= k < tail.len() ==> (#[trigger] tail[k]).len() == w) by {
            assert(forall|k: int| 0 <= k < tail.len() ==> tail[k] == ls[k + 1]);
        }
        lemma_cells_of_lines_len(tail, w);
        assert(ls.len() * w == w + tail.len() * w) by (nonlinear_arith)
            requires
                ls.len() == tail.len() + 1,
        ;
    }
}

proof fn lemma_first_bad_row_all_ok(ls: Seq<Seq<char>>, cols: int, i: int)
    requires
        0 <= i <= ls.len(),
        forall|k: int| i <= k < ls.len() ==> row_ok(ls, cols, k),
    ensures
        first_bad_row(ls, cols, i) == ls.len(),
    decreases ls.len() - i,
{
    if i < ls.len() {
        lemma_first_bad_row_all_ok(ls, cols, i + 1);
    }
}

/// A nonempty text without a trailing newline ends in a nonempty last line.
proof fn lemma_split_last_line_nonempty(s: Seq<char>)
    requires
        s.len() > 0,
        s[s.len() - 1] != '\n',
    ensures
        split_lines(s).len() >= 1,
        split_lines(s)[split_lines(s).len() - 1].len() > 0,
    decreases s.len(),
{
    lemma_first_newline(s);
    let i = first_newline(s);
    if i < s.len() {
        let rest = s.skip(i + 1);
        assert(s[i] == '\n');
        assert(i < s.len() - 1);
        assert(rest.len() > 0);
        assert(rest[rest.len() - 1] == s[s.len() - 1]);
        lemma_split_last_line_nonempty(rest);
        let ls = split_lines(s);
        assert(ls == seq![s.take(i)] + split_lines(rest));
        assert(ls[ls.len() - 1] == split_lines(rest)[split_lines(rest).len() - 1]);
    }
}

/// A map text that round-trips: nonempty, no trailing newline, every line of
/// the first line's length, every character in the map alphabet.
pub open spec fn well_formed_map(s: Seq<char>) -> bool {
    let ls = split_lines(s);
    &&& s.len() > 0
    &&& s[s.len() - 1] != '\n'
    &&& forall|i: int| 0 <= i < ls.len() ==> #[trigger] row_ok(ls, ls[0].len() as int, i)
}

/// Round trip: a well-formed rectangular map text loads without error, and
/// serializing the loaded grid gives the text back, character for character.
pub proof fn lemma_serialize_load_round_trip(s: Seq<char>)
    requires
        well_formed_map(s),
    ensures
        ({
            let ls = split_lines(s);
            let cols = ls[0].len() as int;
            &&& ls.len() > 0
            &&& cols > 0
            &&& first_bad_row(ls, cols, 0) == ls.len()
            &&& serialize_spec(cells_of_lines(ls), cols, ls.len() as int) == s
        }),
{
    let ls = split_lines(s);
    let cols = ls[0].len() as int;
    lemma_first_newline(s);
    assert(ls.len() > 0);
    lemma_split_last_line_nonempty(s);
    assert(cols > 0) by {
        let last = ls.len() - 1;
        assert(row_ok(ls, cols, last));
        if last == 0 {
            assert(ls[0].len() > 0);
        } else {
            assert(ls[last].len() == cols);
        }
    }
    lemma_first_bad_row_all_ok(ls, cols, 0);
    assert forall|k: int| 0 <= k < ls.len() implies (#[trigger] ls[k]).len() == cols by {
        assert(row_ok(ls, cols, k));
    }
    let cells = cells_of_lines(ls);
    assert(rows_of(cells, cols, ls.len() as int) =~= ls) by {
        assert forall|i: int| 0 <= i < ls.len() implies rows_of(cells, cols, ls.len() as int)[i]
            =~= ls[i] by {
            lemma_cells_slice(ls, cols, i);
            assert(row_ok(ls, cols, i));
            let rendered = cells.subrange(i * cols, i * cols + cols).map_values(
                |c: Cell| cell_char(c),
            );
            assert forall|j: int| 0 <= j < cols implies rendered[j] == ls[i][j] by {
                assert(valid_char(ls[i][j]));
                assert(rendered[j] == cell_char(char_cell(ls[i][j])));
            }
        }
    }
    lemma_join_split(s);
}

/// The sample point of a ray at marched distance `d`.
pub open spec fn ray_point(x: int, y: int, dx: int, dy: int, d: int) -> (int, int) {
    (x + div_trunc(dx * d, SCALE as int), y + div_trunc(dy * d, SCALE as int))
}

/// A ray aimed so that no wall cell lies under any of its sample points
/// within the bound never reports a hit.
pub proof fn lemma_raytrace_no_wall_within(
    cells: Seq<Cell>,
    w: int,
    h: int,
    x: int,
    y: int,
    dx: int,
    dy: int,
    max: int,
)
    requires
        forall|d: int|
            0 <= d <= max && d % (STEP as int) == 0 ==> {
                let p = #[trigger] ray_point(x, y, dx, dy, d);
                cell_at_spec(cells, w, h, p.0, p.1) != Some(Cell::Wall)
            },
    ensures
        trace_spec(cells, w, h, x, y, dx, dy, max) is None,
{
    lemma_trace_from_no_wall(cells, w, h, x, y, dx, dy, max, 0);
}

proof fn lemma_trace_from_no_wall(
    cells: Seq<Cell>,
    w: int,
    h: int,
    x: int,
    y: int,
    dx: int,
    dy: int,
    max: int,
    dist: int,
)
    requires
        0 <= dist,
        dist % (STEP as int) == 0,
        forall|d: int|
            0 <= d <= max && d % (STEP as int) == 0 ==> {
                let p = #[trigger] ray_point(x, y, dx, dy, d);
                cell_at_spec(cells, w, h, p.0, p.1) != Some(Cell::Wall)
            },
    ensures
        trace_from(cells, w, h, x, y, dx, dy, max, dist) is None,
    decreases max + STEP - dist,
{
    if dist <= max {
        let p = ray_point(x, y, dx, dy, dist);
        assert(cell_at_spec(cells, w, h, p.0, p.1) != Some(Cell::Wall));
        assert((dist + STEP) % (STEP as int) == 0) by (nonlinear_arith)
            requires
                dist % (STEP as int) == 0,
                STEP == 200,
        ;
        lemma_trace_from_no_wall(cells, w, h, x, y, dx, dy, max, dist + STEP);
    }
}

/// A ray through a grid of only open cells never reports a hit, however far
/// it may march.
pub proof fn lemma_raytrace_all_open(
    cells: Seq<Cell>,
    w: int,
    h: int,
    x: int,
    y: int,
    dx: int,
    dy: int,
    max: int,
)
    requires
        cells.len() == w * h,
        w >= 0,
        h >= 0,
        forall|i: int| 0 <= i < cells.len() ==> (#[trigger] cells[i]) is Open,
    ensures
        trace_spec(cells, w, h, x, y, dx, dy, max) is None,
{
    assert forall|d: int| 0 <= d <= max && d % (STEP as int) == 0 implies {
        let p = #[trigger] ray_point(x, y, dx, dy, d);
        cell_at_spec(cells, w, h, p.0, p.1) != Some(Cell::Wall)
    } by {
        let p = ray_point(x, y, dx, dy, d);
        let tx = p.0;
        let ty = p.1;
        if cell_at_spec(cells, w, h, tx, ty) is Some {
            let col = tx / (SCALE as int);
            let row = ty / (SCALE as int);
            assert(0 <= col < w && 0 <= row < h);
            assert(0 <= row * w + col < w * h) by (nonlinear_arith)
                requires
                    0 <= col < w,
                    0 <= row < h,
            ;
        }
    }
    lemma_raytrace_no_wall_within(cells, w, h, x, y, dx, dy, max);
}

/// A reported hit is the first sampled wall: the marched distance is a step
/// multiple within the bound, its sample point lies on a wall cell, and
/// every earlier sample lies on an open cell inside the grid.  The ray thus
/// crosses into the wall within the final step, so the reported distance
/// overshoots the true crossing by less than one step.
pub proof fn lemma_raytrace_first_wall(
    cells: Seq<Cell>,
    w: int,
    h: int,
    x: int,
    y: int,
    dx: int,
    dy: int,
    max: int,
    r: int,
)
    requires
        trace_spec(cells, w, h, x, y, dx, dy, max) == Some(r),
    ensures
        0 <= r <= max,
        r % (STEP as int) == 0,
        ({
            let p = ray_point(x, y, dx, dy, r);
            cell_at_spec(cells, w, h, p.0, p.1) == Some(Cell::Wall)
        }),
        forall|m: int|
            0 <= m < r && m % (STEP as int) == 0 ==> {
                let p = #[trigger] ray_point(x, y, dx, dy, m);
                cell_at_spec(cells, w, h, p.0, p.1) == Some(Cell::Open)
            },
{
    lemma_trace_from_first_wall(cells, w, h, x, y, dx, dy, max, r, 0);
}

proof fn lemma_trace_from_first_wall(
    cells: Seq<Cell>,
    w: int,
    h: int,
    x: int,
    y: int,
    dx: int,
    dy: int,
    max: int,
    r: int,
    dist: int,
)
    requires
        0 <= dist,
        dist % (STEP as int) == 0,
        trace_from(cells, w, h, x, y, dx, dy, max, dist) == Some(r),
    ensures
        dist <= r <= max,
        r % (STEP as int) == 0,
        ({
            let p = ray_point(x, y, dx, dy, r);
            cell_at_spec(cells, w, h, p.0, p.1) == Some(Cell::Wall)
        }),
        forall|m: int|
            dist <= m < r && m % (STEP as int) == 0 ==> {
                let p = #[trigger] ray_point(x, y, dx, dy, m);
                cell_at_spec(cells, w, h, p.0, p.1) == Some(Cell::Open)
            },
    decreases max + STEP - dist,
{
    assert(dist <= max);
    let p = ray_point(x, y, dx, dy, dist);
    match cell_at_spec(cells, w, h, p.0, p.1) {
        Option::None => {
            assert(false);
        },
        Option::Some(c) => {
            if c is Wall {
                assert(r == dist);
            } else {
                assert(cell_at_spec(cells, w, h, p.0, p.1) == Some(Cell::Open));
                assert((dist + STEP) % (STEP as int) == 0) by (nonlinear_arith)
                    requires
                        dist % (STEP as int) == 0,
                        STEP == 200,
                ;
                lemma_trace_from_first_wall(cells, w, h, x, y, dx, dy, max, r, dist + STEP);
                assert forall|m: int|
                    dist <= m < r && m % (STEP as int) == 0 implies {
                    let q = #[trigger] ray_point(x, y, dx, dy, m);
                    cell_at_spec(cells, w, h, q.0, q.1) == Some(Cell::Open)
                } by {
                    if m < dist + STEP {
                        assert(m < dist + STEP && m % (STEP as int) == 0 && dist % (STEP as int)
                            == 0 && dist <= m ==> m == dist) by (nonlinear_arith);
                    }
                }
            }
        },
    }
}

/// Capping the march below the distance of the hit it would otherwise find
/// turns the hit into a miss: a bounded ray never reports more than it
/// marched.
pub proof fn lemma_raytrace_bounded(
    cells: Seq<Cell>,
    w: int,
    h: int,
    x: int,
    y: int,
    dx: int,
    dy: int,
    max1: int,
    max2: int,
    d: int,
)
    requires
        trace_spec(cells, w, h, x, y, dx, dy, max1) == Some(d),
        max2 < d,
    ensures
        trace_spec(cells, w, h, x, y, dx, dy, max2) is None,
{
    lemma_trace_from_bounded(cells, w, h, x, y, dx, dy, max1, max2, d, 0);
}

proof fn lemma_trace_from_bounded(
    cells: Seq<Cell>,
    w: int,
    h: int,
    x: int,
    y: int,
    dx: int,
    dy: int,
    max1: int,
    max2: int,
    d: int,
    dist: int,
)
    requires
        trace_from(cells, w, h, x, y, dx, dy, max1, dist) == Some(d),
        max2 < d,
    ensures
        trace_from(cells, w, h, x, y, dx, dy, max2, dist) is None,
    decreases max1 + STEP - dist,
{
    assert(dist <= max1);
    let tx = x + div_trunc(dx * dist, SCALE as int);
    let ty = y + div_trunc(dy * dist, SCALE as int);
    match cell_at_spec(cells, w, h, tx, ty) {
        Option::None => {
            assert(false);
        },
        Option::Some(c) => {
            if c is Wall {
                assert(d == dist);
            } else {
                if dist <= max2 {
                    lemma_trace_from_bounded(cells, w, h, x, y, dx, dy, max1, max2, d, dist + STEP);
                }
            }
        },
    }
}

/// Collects the characters of a string into a vector, one code point each.
fn text_chars(s: &str) -> (v: Vec<char>)
    ensures
        v@ == s@,
{
    broadcast use vstd::string::axiom_spec_iter;

    let mut v: Vec<char> = Vec::new();
    for c in it: s.chars()
        invariant
            v@ == it.history(),
    {
        v.push(c);
    }
    proof {
        assert(v@ =~= s@);
    }
    v
}

/// Relies on `String::from_iter`: the returned string holds exactly the
/// iterated characters, in order.
#[verifier::external_body]
fn string_of_chars(v: Vec<char>) -> (s: String)
    ensures
        s@ == v@,
{
    String::from_iter(v)
}

/// Division truncating toward zero, for a positive divisor.
pub(crate) fn quot_trunc(a: i64, b: i64) -> (q: i64)
    requires
        0 < b,
        -0x4000_0000_0000_0000 < a < 0x4000_0000_0000_0000,
    ensures
        q == div_trunc(a as int, b as int),
        a >= 0 ==> 0 <= q <= a,
        a <= 0 ==> a <= q <= 0,
{
    proof {
        assert(forall|n: int, d: int| 0 <= n && 1 <= d ==> 0 <= #[trigger] (n / d) <= n)
            by (nonlinear_arith);
    }
    if a >= 0 {
        ((a as u64) / (b as u64)) as i64
    } else {
        let m = ((-a) as u64) / (b as u64);
        -(m as i64)
    }
}

impl Level {
    /// The grid owns exactly one cell per (row, column) pair.
    #[verifier::type_invariant]
    spec fn wf(self) -> bool {
        self.cells@.len() == self.size.w * self.size.h
    }

    /// The flat row-major cell buffer (cell (r, c) at index `r * width + c`).
    pub closed spec fn grid(self) -> Seq<Cell> {
        self.cells@
    }

    /// Grid width in cells.
    pub closed spec fn width(self) -> int {
        self.size.w as int
    }

    /// Grid height in cells.
    pub closed spec fn height(self) -> int {
        self.size.h as int
    }

    /// The grid dimensions.
    pub fn size(&self) -> (s: Size)
        ensures
            s.w == self.width(),
            s.h == self.height(),
    {
        self.size
    }

    /// Looks up the cell containing the point `(x, y)` (milli-units).  The
    /// point is in range only if `0 <= x < width` and `0 <= y < height` in
    /// grid units; anything else answers `None` rather than faulting.
    pub fn cell_at(&self, x: i64, y: i64) -> (r: Option<Cell>)
        ensures
            r == cell_at_spec(self.grid(), self.width(), self.height(), x as int, y as int),
    {
        proof {
            use_type_invariant(self);
        }
        if x >= 0 && y >= 0 {
            let cx = (x as u64) / (SCALE as u64);
            let cy = (y as u64) / (SCALE as u64);
            if cx < self.size.w as u64 && cy < self.size.h as u64 {
                let col = cx as usize;
                let row = cy as usize;
                let n = self.cells.len();
                proof {
                    let w = self.size.w as int;
                    let h = self.size.h as int;
                    assert(row * w + col < w * h) by (nonlinear_arith)
                        requires
                            0 <= col < w,
                            0 <= row < h,
                    ;
                    assert(row * w + col < n);
                }
                Some(self.cells[row * self.size.w + col])
            } else {
                None
            }
        } else {
            None
        }
    }

    /// Loads a grid from its textual form: one line per row, `'#'` for a
    /// wall, `' '` for an open cell.  The first line fixes the column count;
    /// validation is strict and single-pass, and the first offence decides
    /// the error.  A source with no lines, or with a blank first line, is
    /// `Empty`: a loaded grid always has positive width and height.  On
    /// success the grid is exactly the text's cells.
    pub fn load(source: &str) -> (result: Result<Level, LoadError>)
        ensures
            ({
                let ls = split_lines(source@);
                let cols = if ls.len() > 0 {
                    ls[0].len() as int
                } else {
                    0
                };
                let bad = first_bad_row(ls, cols, 0);
                &&& ((result matches Err(LoadError::Empty)) <==> (ls.len() == 0 || cols == 0))
                &&& ((result is Ok) <==> (ls.len() > 0 && cols > 0 && bad == ls.len()))
                &&& (ls.len() > 0 && cols > 0 && bad < ls.len() ==> result == Result::<
                    Level,
                    LoadError,
                >::Err(row_err(ls, cols, bad)))
                &&& (result matches Ok(level) ==> level.width() == cols && level.height()
                    == ls.len() && level.width() > 0 && level.height() > 0 && level.grid()
                    == cells_of_lines(ls))
            }),
    {
        let chars = text_chars(source);
        let lines = split_into_lines(&chars);
        let ghost ls = lines@.map_values(|l: Vec<char>| l@);
        if lines.len() == 0 {
            return Err(LoadError::Empty);
        }
        let cols = lines[0].len();
        if cols == 0 {
            return Err(LoadError::Empty);
        }
        let mut cells: Vec<Cell> = Vec::new();
        let mut row: usize = 0;
        while row < lines.len()
            invariant
                ls == lines@.map_values(|l: Vec<char>| l@),
                ls == split_lines(source@),
                ls.len() == lines@.len(),
                0 < ls.len(),
                0 <= row <= ls.len(),
                ls.len() <= usize::MAX,
                cols == ls[0].len(),
                cols > 0,
                first_bad_row(ls, cols as int, 0) == first_bad_row(ls, cols as int, row as int),
                cells@ == cells_of_lines(ls.take(row as int)),
                cells@.len() == row * cols,
            decreases lines@.len() - row,
        {
            let line = &lines[row];
            proof {
                assert(line@ == ls[row as int]);
            }
            if row > 0 && line.len() != cols {
                proof {
                    assert(!row_ok(ls, cols as int, row as int));
                    assert(first_bad_row(ls, cols as int, row as int) == row);
                    assert(row_err(ls, cols as int, row as int) == LoadError::NonRect(
                        (row + 1) as usize,
                    ));
                }
                return Err(LoadError::NonRect(row + 1));
            }
            match Self::load_row(&mut cells, line, row) {
                Ok(_) => {},
                Err(e) => {
                    proof {
                        assert(!line_ok(line@));
                        assert(!row_ok(ls, cols as int, row as int));
                        assert(first_bad_row(ls, cols as int, row as int) == row);
                        assert(row_err(ls, cols as int, row as int) == e);
                    }
                    return Err(e);
                },
            }
            proof {
                assert(line_ok(line@));
                assert(row_ok(ls, cols as int, row as int));
                assert(ls.take(row + 1) =~= ls.take(row as int).push(ls[row as int]));
                lemma_cells_of_lines_snoc(ls.take(row as int), ls[row as int]);
                assert(cells@ == cells_of_lines(ls.take(row + 1)));
                assert(line@.len() == cols);
                assert((row + 1) * cols == row * cols + cols) by (nonlinear_arith);
            }
            row = row + 1;
        }
        proof {
            assert(ls.take(row as int) =~= ls);
            assert(first_bad_row(ls, cols as int, row as int) == ls.len());
            assert(cols * row == row * cols) by (nonlinear_arith);
        }
        Ok(Level { cells, size: Size { w: cols, h: lines.len() } })
    }

    /// Appends one line's cells to the buffer: `'#'` is a wall, `' '` an
    /// open cell, and the first foreign character aborts with its 1-based
    /// (row, column) position, leaving the valid prefix already appended.
    fn load_row(cells: &mut Vec<Cell>, row: &Vec<char>, row_num: usize) -> (r: Result<
        (),
        LoadError,
    >)
        requires
            row_num < usize::MAX,
            row@.len() <= usize::MAX,
        ensures
            line_ok(row@) ==> r is Ok && final(cells)@ == old(cells)@ + row_cells(row@),
            !line_ok(row@) ==> r == Result::<(), LoadError>::Err(
                LoadError::InvalidChar((row_num + 1) as usize, (first_bad_char(row@) + 1) as usize),
            ) && final(cells)@ == old(cells)@ + row_cells(row@.take(first_bad_char(row@))),
    {
        let mut col: usize = 0;
        proof {
            assert(cells@ =~= cells@ + row_cells(row@.take(0)));
        }
        while col < row.len()
            invariant
                row_num < usize::MAX,
                0 <= col <= row@.len(),
                row@.len() <= usize::MAX,
                forall|j: int| 0 <= j < col ==> valid_char(row@[j]),
                cells@ == old(cells)@ + row_cells(row@.take(col as int)),
            decreases row@.len() - col,
        {
            let c = row[col];
            if c == '#' {
                cells.push(Cell::Wall);
            } else if c == ' ' {
                cells.push(Cell::Open);
            } else {
                proof {
                    lemma_first_bad_char_at(row@, col as int);
                    assert(!line_ok(row@));
                }
                return Err(LoadError::InvalidChar(row_num + 1, col + 1));
            }
            proof {
                assert(row_cells(row@.take(col + 1)) =~= row_cells(row@.take(col as int)).push(
                    char_cell(row@[col as int]),
                ));
                assert(cells@ =~= old(cells)@ + row_cells(row@.take(col + 1)));
            }
            col = col + 1;
        }
        proof {
            assert(row@.take(col as int) =~= row@);
        }
        Ok(())
    }

    /// Renders the grid back to its textual form: one line per row, rows
    /// joined by single newlines, `'#'` for a wall and `' '` for an open
    /// cell — the exact inverse of [`Level::load`]'s character mapping.
    pub fn serialize(&self) -> (text: String)
        ensures
            text@ == serialize_spec(self.grid(), self.width(), self.height()),
    {
        proof {
            use_type_invariant(self);
        }
        let w = self.size.w;
        let h = self.size.h;
        let ghost rows = rows_of(self.grid(), w as int, h as int);
        let total = self.cells.len();
        let mut out: Vec<char> = Vec::new();
        let mut row: usize = 0;
        proof {
            assert(rows.take(0) =~= Seq::<Seq<char>>::empty());
        }
        while row < h
            invariant
                w == self.size.w,
                h == self.size.h,
                self.grid().len() == w * h,
                w * h <= usize::MAX,
                rows == rows_of(self.grid(), w as int, h as int),
                0 <= row <= h,
                out@ == join_lines(rows.take(row as int)),
            decreases h - row,
        {
            let ghost prev = join_lines(rows.take(row as int));
            if row > 0 {
                out.push('\n');
            }
            let ghost base = out@;
            let mut col: usize = 0;
            proof {
                assert(rows[row as int].take(0) =~= Seq::<char>::empty());
                assert(base =~= base + rows[row as int].take(0));
            }
            while col < w
                invariant
                    w == self.size.w,
                    h == self.size.h,
                    self.grid().len() == w * h,
                    w * h <= usize::MAX,
                    rows == rows_of(self.grid(), w as int, h as int),
                    0 <= row < h,
                    0 <= col <= w,
                    out@ == base + rows[row as int].take(col as int),
                decreases w - col,
            {
                proof {
                    assert(0 <= row * w + col < w * h) by (nonlinear_arith)
                        requires
                            0 <= col < w,
                            0 <= row < h,
                    ;
                    assert(row * w + w <= w * h) by (nonlinear_arith)
                        requires
                            0 <= row < h,
                            0 <= col < w,
                    ;
                }
                let idx = row * w + col;
                let c = self.cells[idx];
                let g = if let Cell::Wall = c {
                    '#'
                } else {
                    ' '
                };
                proof {
                    assert(rows[row as int][col as int] == cell_char(
                        self.grid()[row * w + col],
                    ));
                    assert(rows[row as int].take(col + 1) =~= rows[row as int].take(
                        col as int,
                    ).push(g));
                    assert(base + rows[row as int].take(col as int).push(g) =~= (base + rows[
                        row as int
                    ].take(col as int)).push(g));
                }
                out.push(g);
                col = col + 1;
            }
            proof {
                assert(row * w + w <= w * h) by (nonlinear_arith)
                    requires
                        0 <= row < h,
                        0 <= w,
                ;
                assert(0 <= row * w) by (nonlinear_arith)
                    requires
                        0 <= row,
                        0 <= w,
                ;
                assert(rows[row as int].len() == w);
                assert(rows[row as int].take(col as int) =~= rows[row as int]);
                assert(rows.take(row + 1) =~= rows.take(row as int).push(rows[row as int]));
                lemma_join_snoc(rows.take(row as int), rows[row as int]);
                if row == 0 {
                    assert(base =~= Seq::<char>::empty() + base);
                    assert(out@ =~= join_lines(rows.take(row + 1)));
                } else {
                    assert(base == prev.push('\n'));
                    assert(prev.push('\n') =~= prev + seq!['\n']);
                    assert((prev + seq!['\n']) + rows[row as int] =~= prev + seq!['\n'] + rows[
                        row as int
                    ]);
                    assert(out@ =~= join_lines(rows.take(row + 1)));
                }
            }
            row = row + 1;
        }
        proof {
            assert(rows.take(row as int) =~= rows);
        }
        string_of_chars(out)
    }

    /// Marches a ray from `(x, y)` along `(dir_x, dir_y)` in steps of `STEP`
    /// milli-units, at most `max_dist` far.  All arguments are milli-units;
    /// the direction is a unit vector scaled by `SCALE`.  Returns the marched
    /// distance to the first step landing on a `Wall`, or `None` once the ray
    /// leaves the grid or outruns `max_dist`.
    pub fn raytrace(&self, x: i64, y: i64, dir_x: i64, dir_y: i64, max_dist: i64) -> (r: Option<
        i64,
    >)
        requires
            -MAX_COORD <= x <= MAX_COORD,
            -MAX_COORD <= y <= MAX_COORD,
            -SCALE <= dir_x <= SCALE,
            -SCALE <= dir_y <= SCALE,
            max_dist <= MAX_TRACE,
        ensures
            ({
                let t = trace_spec(
                    self.grid(),
                    self.width(),
                    self.height(),
                    x as int,
                    y as int,
                    dir_x as int,
                    dir_y as int,
                    max_dist as int,
                );
                &&& (r is Some <==> t is Some)
                &&& (r matches Some(d) ==> t == Some(d as int) && 0 <= d <= max_dist)
            }),
    {
        let ghost g = self.grid();
        let ghost w = self.width();
        let ghost h = self.height();
        let mut dist: i64 = 0;
        while dist <= max_dist
            invariant
                -MAX_COORD <= x <= MAX_COORD,
                -MAX_COORD <= y <= MAX_COORD,
                -SCALE <= dir_x <= SCALE,
                -SCALE <= dir_y <= SCALE,
                max_dist <= MAX_TRACE,
                0 <= dist <= MAX_TRACE + STEP,
                g == self.grid() && w == self.width() && h == self.height(),
                trace_from(g, w, h, x as int, y as int, dir_x as int, dir_y as int,
                    max_dist as int, 0) == trace_from(g, w, h, x as int, y as int,
                    dir_x as int, dir_y as int, max_dist as int, dist as int),
            decreases max_dist + STEP - dist,
        {
            proof {
                assert(-2_000_000_000_000_000 <= dir_x * dist <= 2_000_000_000_000_000)
                    by (nonlinear_arith)
                    requires
                        -SCALE <= dir_x <= SCALE,
                        0 <= dist <= MAX_TRACE + STEP,
                ;
                assert(-2_000_000_000_000_000 <= dir_y * dist <= 2_000_000_000_000_000)
                    by (nonlinear_arith)
                    requires
                        -SCALE <= dir_y <= SCALE,
                        0 <= dist <= MAX_TRACE + STEP,
                ;
            }
            let ox = quot_trunc(dir_x * dist, SCALE);
            let oy = quot_trunc(dir_y * dist, SCALE);
            let tx = x + ox;
            let ty = y + oy;
            match self.cell_at(tx, ty) {
                Option::Some(c) => {
                    if let Cell::Wall = c {
                        return Some(dist);
                    }
                },
                Option::None => {
                    return None;
                },
            }
            dist = dist + STEP;
        }
        None
    }
}

} // verus!
