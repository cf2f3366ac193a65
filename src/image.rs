//! The maze drawn into an RGBA pixel buffer, four bytes per pixel, row by row.
use vstd::prelude::*;

use crate::cell::CellHandle;
use crate::grid::{east_of, north_of, south_of, west_of, Grid};
use crate::mask::lemma_index_bound;
use crate::solvers::Djikstra;

verus! {

/// A colour with alpha, one byte per channel.
#[derive(Debug, Default, Clone, Copy, PartialEq, Eq, Structural)]
pub struct Color {
    pub r: u8,
    pub g: u8,
    pub b: u8,
    pub a: u8,
}

impl Color {
    pub fn new(r: u8, g: u8, b: u8, a: u8) -> (c: Color)
        ensures
            c == (Color { r, g, b, a }),
    {
        Color { r, g, b, a }
    }

    pub fn white() -> (c: Color)
        ensures
            c == (Color { r: 255, g: 255, b: 255, a: 255 }),
    {
        Color { r: 255, g: 255, b: 255, a: 255 }
    }

    pub fn black() -> (c: Color)
        ensures
            c == (Color { r: 0, g: 0, b: 0, a: 255 }),
    {
        Color { r: 0, g: 0, b: 0, a: 255 }
    }
}

/// The colour of pixel `x`, `y` in a buffer `width` pixels wide.
pub open spec fn pixel(data: Seq<u8>, width: int, x: int, y: int) -> Color {
    let i = (y * width + x) * 4;
    Color { r: data[i], g: data[i + 1], b: data[i + 2], a: data[i + 3] }
}

/// Pixel `x`, `y` lies in a buffer `width` by `height`.
pub open spec fn in_image(width: int, height: int, x: int, y: int) -> bool {
    0 <= x < width && 0 <= y < height
}

proof fn lemma_pixel_index(width: int, height: int, x: int, y: int)
    requires
        in_image(width, height, x, y),
    ensures
        0 <= (y * width + x) * 4,
        (y * width + x) * 4 + 3 < width * height * 4,
{
    lemma_index_bound(y, x, height, width);
}

proof fn lemma_pixels_apart(width: int, x1: int, y1: int, x2: int, y2: int)
    requires
        0 <= x1 < width,
        0 <= x2 < width,
        0 <= y1,
        0 <= y2,
        x1 != x2 || y1 != y2,
    ensures
        (y1 * width + x1) * 4 + 3 < (y2 * width + x2) * 4 || (y2 * width + x2) * 4 + 3 < (y1 * width
            + x1) * 4,
{
    if y1 * width + x1 == y2 * width + x2 {
        crate::mask::lemma_index_unique(y1, x1, y2, x2, width);
    }
}

/// Sets one pixel.
fn plot(data: &mut Vec<u8>, width: usize, height: usize, x: usize, y: usize, color: Color)
    requires
        old(data)@.len() == width * height * 4,
        in_image(width as int, height as int, x as int, y as int),
    ensures
        final(data)@.len() == old(data)@.len(),
        pixel(final(data)@, width as int, x as int, y as int) == color,
        forall|px: int, py: int|
            in_image(width as int, height as int, px, py) && (px != x || py != y) ==> #[trigger] pixel(
                final(data)@,
                width as int,
                px,
                py,
            ) == pixel(old(data)@, width as int, px, py),
{
    proof {
        lemma_pixel_index(width as int, height as int, x as int, y as int);
        lemma_index_bound(y as int, x as int, height as int, width as int);
    }
    let len = data.len();
    assert((y * width + x) * 4 + 3 < len);
    let index = (y * width + x) * 4;
    data.set(index, color.r);
    data.set(index + 1, color.g);
    data.set(index + 2, color.b);
    data.set(index + 3, color.a);
    proof {
        assert forall|px: int, py: int|
            in_image(width as int, height as int, px, py) && (px != x || py != y) implies #[trigger] pixel(
                data@,
                width as int,
                px,
                py,
            ) == pixel(old(data)@, width as int, px, py) by {
            lemma_pixel_index(width as int, height as int, px, py);
            lemma_pixels_apart(width as int, px, py, x as int, y as int);
        }
    }
}

/// Fills the rectangle from `x1`, `y1` to `x2`, `y2`, both corners included.
pub fn quad(
    data: &mut Vec<u8>,
    width: usize,
    height: usize,
    x1: usize,
    y1: usize,
    x2: usize,
    y2: usize,
    color: Color,
)
    requires
        old(data)@.len() == width * height * 4,
        x2 < width,
        y2 < height,
    ensures
        final(data)@.len() == old(data)@.len(),
        forall|px: int, py: int|
            in_image(width as int, height as int, px, py) ==> #[trigger] pixel(final(data)@, width as int, px, py)
                == if x1 <= px <= x2 && y1 <= py <= y2 {
                color
            } else {
                pixel(old(data)@, width as int, px, py)
            },
{
    let mut y = y1;
    while y <= y2
        invariant
            data@.len() == width * height * 4,
            x2 < width,
            y2 < height,
            y1 <= y,
            y1 <= y2 ==> y <= y2 + 1,
            y1 > y2 ==> y == y1,
            forall|px: int, py: int|
                in_image(width as int, height as int, px, py) ==> #[trigger] pixel(data@, width as int, px, py)
                    == if x1 <= px <= x2 && y1 <= py < y {
                    color
                } else {
                    pixel(old(data)@, width as int, px, py)
                },
        decreases y2 + 1 - y,
    {
        let mut x = x1;
        while x <= x2
            invariant
                data@.len() == width * height * 4,
                x2 < width,
                y2 < height,
                y1 <= y <= y2,
                x1 <= x,
                x1 <= x2 ==> x <= x2 + 1,
                x1 > x2 ==> x == x1,
                forall|px: int, py: int|
                    in_image(width as int, height as int, px, py) ==> #[trigger] pixel(data@, width as int, px, py)
                        == if x1 <= px <= x2 && y1 <= py < y || py == y && x1 <= px < x {
                        color
                    } else {
                        pixel(old(data)@, width as int, px, py)
                    },
            decreases x2 + 1 - x,
        {
            plot(data, width, height, x, y, color);
            x += 1;
        }
        y += 1;
    }
}

/// The east side of the cell at `h` is a wall: no passage leads east from it.
pub open spec fn east_closed(grid: Grid, h: CellHandle) -> bool {
    !(grid.at(h).east is Some && grid.linked(h, east_of(h)))
}

/// The south side of the cell at `h` is a wall: no passage leads south from it.
pub open spec fn south_closed(grid: Grid, h: CellHandle) -> bool {
    !(grid.at(h).south is Some && grid.linked(h, south_of(h)))
}

/// Pixel `x`, `y` lies on the east side of the cell at `h`.
pub open spec fn on_east_side(h: CellHandle, size: int, x: int, y: int) -> bool {
    x == (h.col + 1) * size && 1 + h.row * size <= y <= (h.row + 1) * size
}

/// Pixel `x`, `y` lies on the south side of the cell at `h`.
pub open spec fn on_south_side(h: CellHandle, size: int, x: int, y: int) -> bool {
    y == (h.row + 1) * size && 1 + h.col * size <= x <= (h.col + 1) * size
}

/// Pixel `x`, `y` lies on the north side of the cell at `h`.
pub open spec fn on_north_side(h: CellHandle, size: int, x: int, y: int) -> bool {
    y == 1 + h.row * size && 1 + h.col * size <= x <= (h.col + 1) * size
}

/// Pixel `x`, `y` lies on the west side of the cell at `h`.
pub open spec fn on_west_side(h: CellHandle, size: int, x: int, y: int) -> bool {
    x == 1 + h.col * size && 1 + h.row * size <= y <= (h.row + 1) * size
}

/// Pixel `x`, `y` lies on a wall of the cell at `h`: a side with no neighbour, or an east or
/// south side with no passage.
pub open spec fn on_wall(grid: Grid, h: CellHandle, size: int, x: int, y: int) -> bool {
    ||| on_north_side(h, size, x, y) && grid.at(h).north is None
    ||| on_west_side(h, size, x, y) && grid.at(h).west is None
    ||| on_east_side(h, size, x, y) && east_closed(grid, h)
    ||| on_south_side(h, size, x, y) && south_closed(grid, h)
}

/// The walls drawn for the cells before `r`, `c` in row-major order are black.
pub open spec fn walls_drawn(grid: Grid, data: Seq<u8>, width: int, height: int, size: int, r: int, c: int) -> bool {
    forall|h: CellHandle, x: int, y: int|
        #![trigger grid.enabled(h), pixel(data, width, x, y)]
        grid.enabled(h) && (h.row < r || (h.row == r && h.col < c)) && in_image(width, height, x, y)
            && on_wall(grid, h, size, x, y) ==> pixel(data, width, x, y) == Color { r: 0, g: 0, b: 0, a: 255 }
}

/// Pixel `x`, `y` lies strictly inside the cell at `h`, off all four of its sides.
pub open spec fn interior(h: CellHandle, size: int, x: int, y: int) -> bool {
    1 + h.col * size < x < (h.col + 1) * size && 1 + h.row * size < y < (h.row + 1) * size
}

/// The background a cell gets: the solver's shade, or white.
pub open spec fn background_of(solver: Option<Djikstra>, h: CellHandle) -> Color {
    match solver {
        Some(s) => s.background_spec(h),
        None => Color { r: 255, g: 255, b: 255, a: 255 },
    }
}

/// The interiors of the cells before `r`, `c` in row-major order hold their backgrounds.
pub open spec fn interiors_painted(
    grid: Grid,
    solver: Option<Djikstra>,
    data: Seq<u8>,
    width: int,
    height: int,
    size: int,
    r: int,
    c: int,
) -> bool {
    forall|h: CellHandle, x: int, y: int|
        #![trigger grid.enabled(h), pixel(data, width, x, y)]
        grid.enabled(h) && (h.row < r || (h.row == r && h.col < c)) && in_image(width, height, x, y)
            && interior(h, size, x, y) ==> pixel(data, width, x, y) == background_of(solver, h)
}

/// Pixel `x`, `y` lies on the west side of the cell at `h`, off its corners.
pub open spec fn on_west_strip(h: CellHandle, size: int, x: int, y: int) -> bool {
    x == h.col * size && 1 + h.row * size < y < (h.row + 1) * size
}

/// Pixel `x`, `y` lies on the north side of the cell at `h`, off its corners.
pub open spec fn on_north_strip(h: CellHandle, size: int, x: int, y: int) -> bool {
    y == h.row * size && 1 + h.col * size < x < (h.col + 1) * size
}

/// The west and north sides of the cells before `r`, `c` in row-major order hold their
/// backgrounds.
pub open spec fn strips_painted(
    grid: Grid,
    solver: Option<Djikstra>,
    data: Seq<u8>,
    width: int,
    height: int,
    size: int,
    r: int,
    c: int,
) -> bool {
    forall|h: CellHandle, x: int, y: int|
        #![trigger grid.enabled(h), pixel(data, width, x, y)]
        grid.enabled(h) && (h.row < r || (h.row == r && h.col < c)) && in_image(width, height, x, y)
            && (on_west_strip(h, size, x, y) || on_north_strip(h, size, x, y)) ==> pixel(data, width, x, y)
            == background_of(solver, h)
}

/// Where a passage leads into a cell from the west or from the north, the side it crosses
/// holds the cell's background: no wall is drawn there.
pub open spec fn open_sides_painted(
    grid: Grid,
    solver: Option<Djikstra>,
    data: Seq<u8>,
    width: int,
    height: int,
    size: int,
) -> bool {
    forall|h: CellHandle, x: int, y: int|
        #![trigger grid.enabled(h), pixel(data, width, x, y)]
        grid.enabled(h) && in_image(width, height, x, y) && (on_west_strip(h, size, x, y) && grid.at(h).west
            is Some && grid.linked(h, west_of(h)) || on_north_strip(h, size, x, y) && grid.at(h).north is Some
            && grid.linked(h, north_of(h))) ==> pixel(data, width, x, y) == background_of(solver, h)
}

/// A background is never the wall colour.
pub proof fn lemma_background_not_wall(solver: Option<Djikstra>, h: CellHandle)
    ensures
        background_of(solver, h) != (Color { r: 0, g: 0, b: 0, a: 255 }),
{
    if let Some(s) = solver {
        if let Some((d, max)) = s.center_spec() {
            let dd: int = if d.contains_key(h) { d[h] as int } else { 0 };
            let m = max as int;
            if !(m <= 0 || dd > m) {
                let q = (254 * (m - dd) + m) / (2 * m);
                assert(0 <= q <= 127) by (nonlinear_arith)
                    requires
                        q == (254 * (m - dd) + m) / (2 * m),
                        0 <= dd <= m,
                        m > 0,
                ;
            }
        }
    }
}

/// A side of a cell, off its corners, lies in the cell's own square and in no square of a
/// cell after it row by row.
proof fn lemma_strip_in_square(h: CellHandle, g: CellHandle, size: int, x: int, y: int)
    requires
        size >= 1,
        on_west_strip(h, size, x, y) || on_north_strip(h, size, x, y),
    ensures
        g == h ==> g.col * size <= x <= (g.col + 1) * size && g.row * size <= y <= (g.row + 1) * size,
        crate::grid::row_major_before(h, g) ==> !(g.col * size <= x <= (g.col + 1) * size && g.row * size
            <= y <= (g.row + 1) * size),
{
    let c = h.col as int;
    let d = g.col as int;
    let r = h.row as int;
    let e = g.row as int;
    assert((c + 1) * size == c * size + size) by (nonlinear_arith);
    assert((r + 1) * size == r * size + size) by (nonlinear_arith);
    if d > c {
        assert((c + 1) * size <= d * size) by (nonlinear_arith)
            requires
                c + 1 <= d,
                size >= 1,
        ;
    }
    if e > r {
        assert((r + 1) * size <= e * size) by (nonlinear_arith)
            requires
                r + 1 <= e,
                size >= 1,
        ;
    }
}

/// The walls of the cell at `g` miss the sides of every cell, but for the side of its east
/// or south neighbour that its own east or south wall covers.
proof fn lemma_strip_walls(h: CellHandle, g: CellHandle, size: int, x: int, y: int)
    requires
        size >= 1,
        on_west_strip(h, size, x, y) || on_north_strip(h, size, x, y),
    ensures
        !on_north_side(g, size, x, y),
        !on_west_side(g, size, x, y),
        on_east_side(g, size, x, y) ==> on_west_strip(h, size, x, y) && h.row == g.row && h.col == g.col + 1,
        on_south_side(g, size, x, y) ==> on_north_strip(h, size, x, y) && h.row == g.row + 1 && h.col == g.col,
{
    let c = h.col as int;
    let d = g.col as int;
    let r = h.row as int;
    let e = g.row as int;
    assert((c + 1) * size == c * size + size) by (nonlinear_arith);
    assert((r + 1) * size == r * size + size) by (nonlinear_arith);
    assert((d + 1) * size == d * size + size) by (nonlinear_arith);
    assert((e + 1) * size == e * size + size) by (nonlinear_arith);
    // products of distinct multipliers differ by at least `size`
    assert forall|a: int, b: int| a < b implies #[trigger] (a * size) + size <= #[trigger] (b * size) by {
        assert(a * size + size <= b * size) by (nonlinear_arith)
            requires
                a < b,
                size >= 1,
        ;
    }
    assert(c * size + size <= (c + 1) * size + 0);
    if d < c { assert(d * size + size <= c * size); }
    if d > c { assert(c * size + size <= d * size); }
    if e < r { assert(e * size + size <= r * size); }
    if e > r { assert(r * size + size <= e * size); }
    if d + 1 < c { assert((d + 1) * size + size <= c * size); }
    if d + 1 > c { assert(c * size + size <= (d + 1) * size); }
    if e + 1 < r { assert((e + 1) * size + size <= r * size); }
    if e + 1 > r { assert(r * size + size <= (e + 1) * size); }
}

/// A cell's interior lies in no other cell's square, and on no side of any cell.
proof fn lemma_interior_apart(h: CellHandle, g: CellHandle, size: int, x: int, y: int)
    requires
        size >= 1,
        interior(h, size, x, y),
    ensures
        g != h ==> !(g.col * size <= x <= (g.col + 1) * size && g.row * size <= y <= (g.row + 1) * size),
        x != (g.col + 1) * size,
        x != 1 + g.col * size,
        y != (g.row + 1) * size,
        y != 1 + g.row * size,
{
    let c = h.col as int;
    let d = g.col as int;
    let r = h.row as int;
    let e = g.row as int;
    if d < c {
        assert((d + 1) * size <= c * size) by (nonlinear_arith)
            requires
                d + 1 <= c,
                size >= 1,
        ;
    } else if d > c {
        assert((c + 1) * size <= d * size) by (nonlinear_arith)
            requires
                c + 1 <= d,
                size >= 1,
        ;
    }
    if e < r {
        assert((e + 1) * size <= r * size) by (nonlinear_arith)
            requires
                e + 1 <= r,
                size >= 1,
        ;
    } else if e > r {
        assert((r + 1) * size <= e * size) by (nonlinear_arith)
            requires
                r + 1 <= e,
                size >= 1,
        ;
    }
    assert((c + 1) * size == c * size + size) by (nonlinear_arith);
    assert((d + 1) * size == d * size + size) by (nonlinear_arith);
    assert((r + 1) * size == r * size + size) by (nonlinear_arith);
    assert((e + 1) * size == e * size + size) by (nonlinear_arith);
}

proof fn lemma_cell_box_pixels(r: int, c: int, rows: int, cols: int, size: int)
    requires
        0 <= r < rows,
        0 <= c < cols,
        size >= 1,
    ensures
        (c + 1) * size <= cols * size,
        (r + 1) * size <= rows * size,
        c * size + 1 <= (c + 1) * size,
        r * size + 1 <= (r + 1) * size,
        (c + 1) * size == c * size + size,
        (r + 1) * size == r * size + size,
        0 <= c * size,
        0 <= r * size,
{
    assert((c + 1) * size <= cols * size) by (nonlinear_arith)
        requires
            c + 1 <= cols,
            size >= 1,
    ;
    assert((r + 1) * size <= rows * size) by (nonlinear_arith)
        requires
            r + 1 <= rows,
            size >= 1,
    ;
    assert((c + 1) * size == c * size + size) by (nonlinear_arith);
    assert((r + 1) * size == r * size + size) by (nonlinear_arith);
    assert(0 <= c * size) by (nonlinear_arith)
        requires
            c >= 0,
            size >= 1,
    ;
    assert(0 <= r * size) by (nonlinear_arith)
        requires
            r >= 0,
            size >= 1,
    ;
}

/// The maze drawn into pixels, `cell_size` pixels a cell and a one-pixel margin: cells
/// white, or shaded by the solver's distances from the centre, and black walls on every
/// side without a neighbour or a passage.
pub fn generate_image(grid: &Grid, cell_size: usize, solver: Option<&Djikstra>) -> (r: (usize, usize, Vec<u8>))
    requires
        grid.wf(),
        solver matches Some(s) ==> s.wf(),
        (grid.cols * cell_size + 2) * (grid.rows * cell_size + 2) * 4 <= usize::MAX,
    ensures
        r.0 == grid.cols * cell_size + 2,
        r.1 == grid.rows * cell_size + 2,
        r.2@.len() == r.0 * r.1 * 4,
        walls_drawn(*grid, r.2@, r.0 as int, r.1 as int, cell_size as int, grid.rows as int, 0),
        interiors_painted(*grid, match solver {
            Some(s) => Some(*s),
            None => None::<Djikstra>,
        }, r.2@, r.0 as int, r.1 as int, cell_size as int, grid.rows as int, 0),
        open_sides_painted(*grid, match solver {
            Some(s) => Some(*s),
            None => None::<Djikstra>,
        }, r.2@, r.0 as int, r.1 as int, cell_size as int),
        // an open side is never drawn in the wall colour
        forall|h: CellHandle, x: int, y: int|
            #![trigger grid.enabled(h), pixel(r.2@, r.0 as int, x, y)]
            grid.enabled(h) && in_image(r.0 as int, r.1 as int, x, y) && (on_west_strip(h, cell_size as int, x, y)
                && grid.at(h).west is Some && grid.linked(h, west_of(h)) || on_north_strip(h, cell_size as int, x, y)
                && grid.at(h).north is Some && grid.linked(h, north_of(h))) ==> pixel(r.2@, r.0 as int, x, y)
                != (Color { r: 0, g: 0, b: 0, a: 255 }),
{
    if cell_size == 0 {
        // cells of no size: only the margin, left blank
        let data: Vec<u8> = vec![0u8; 16];
        assert(data@.len() == 16);
        let r = (2usize, 2usize, data);
        proof {
            assert(r.0 * r.1 * 4 == 16) by (nonlinear_arith)
                requires
                    r.0 == 2,
                    r.1 == 2,
            ;
            assert(grid.cols * cell_size == 0 && grid.rows * cell_size == 0);
        }
        return r;
    }
    let r = draw(grid, cell_size, solver);
    proof {
        let so = match solver {
            Some(s) => Some(*s),
            None => None::<Djikstra>,
        };
        assert forall|h: CellHandle, x: int, y: int|
            #![trigger grid.enabled(h), pixel(r.2@, r.0 as int, x, y)]
            grid.enabled(h) && in_image(r.0 as int, r.1 as int, x, y) && (on_west_strip(h, cell_size as int, x, y)
                && grid.at(h).west is Some && grid.linked(h, west_of(h)) || on_north_strip(h, cell_size as int, x, y)
                && grid.at(h).north is Some && grid.linked(h, north_of(h))) implies pixel(r.2@, r.0 as int, x, y)
                != (Color { r: 0, g: 0, b: 0, a: 255 }) by {
            lemma_background_not_wall(so, h);
        }
    }
    r
}

/// Draws the maze with cells of at least one pixel.
fn draw(grid: &Grid, cell_size: usize, solver: Option<&Djikstra>) -> (r: (usize, usize, Vec<u8>))
    requires
        grid.wf(),
        solver matches Some(s) ==> s.wf(),
        cell_size >= 1,
        (grid.cols * cell_size + 2) * (grid.rows * cell_size + 2) * 4 <= usize::MAX,
    ensures
        open_sides_painted(*grid, match solver {
            Some(s) => Some(*s),
            None => None::<Djikstra>,
        }, r.2@, r.0 as int, r.1 as int, cell_size as int),
        r.0 == grid.cols * cell_size + 2,
        r.1 == grid.rows * cell_size + 2,
        r.2@.len() == r.0 * r.1 * 4,
        walls_drawn(*grid, r.2@, r.0 as int, r.1 as int, cell_size as int, grid.rows as int, 0),
        interiors_painted(*grid, match solver {
            Some(s) => Some(*s),
            None => None::<Djikstra>,
        }, r.2@, r.0 as int, r.1 as int, cell_size as int, grid.rows as int, 0),
{
    let ghost so = match solver {
        Some(s) => Some(*s),
        None => None::<Djikstra>,
    };
    let rows = grid.rows;
    let cols = grid.cols;
    proof {
        assert(cols * cell_size <= (cols * cell_size + 2) * (rows * cell_size + 2) * 4) by (nonlinear_arith)
            requires
                cols >= 1,
                rows >= 1,
                cell_size >= 1,
        ;
        assert(rows * cell_size <= (cols * cell_size + 2) * (rows * cell_size + 2) * 4) by (nonlinear_arith)
            requires
                cols >= 1,
                rows >= 1,
                cell_size >= 1,
        ;
        assert((cols * cell_size + 2) * (rows * cell_size + 2) <= (cols * cell_size + 2) * (rows * cell_size + 2) * 4) by (nonlinear_arith);
    }
    let width = cols * cell_size + 2;
    let height = rows * cell_size + 2;
    let size = width * height * 4;
    let mut data: Vec<u8> = vec![0u8; size];
    let white = Color::white();
    let wall = Color::black();
    // the background of each cell
    let mut r: usize = 0;
    while r < rows
        invariant
            grid.wf(),
            rows == grid.rows,
            cols == grid.cols,
            cell_size >= 1,
            width == cols * cell_size + 2,
            height == rows * cell_size + 2,
            data@.len() == width * height * 4,
            solver matches Some(s) ==> s.wf(),
            so == match solver {
                Some(s) => Some(*s),
                None => None::<Djikstra>,
            },
            r <= rows,
            white == (Color { r: 255, g: 255, b: 255, a: 255 }),
            interiors_painted(*grid, so, data@, width as int, height as int, cell_size as int, r as int, 0),
            strips_painted(*grid, so, data@, width as int, height as int, cell_size as int, r as int, 0),
        decreases rows - r,
    {
        let mut c: usize = 0;
        while c < cols
            invariant
                grid.wf(),
                rows == grid.rows,
                cols == grid.cols,
                cell_size >= 1,
                width == cols * cell_size + 2,
                height == rows * cell_size + 2,
                data@.len() == width * height * 4,
                solver matches Some(s) ==> s.wf(),
                so == match solver {
                    Some(s) => Some(*s),
                    None => None::<Djikstra>,
                },
                r < rows,
                c <= cols,
                white == (Color { r: 255, g: 255, b: 255, a: 255 }),
                interiors_painted(*grid, so, data@, width as int, height as int, cell_size as int, r as int, c as int),
                strips_painted(*grid, so, data@, width as int, height as int, cell_size as int, r as int, c as int),
            decreases cols - c,
        {
            let ghost before = data@;
            if grid.get(r, c).is_some() {
                proof {
                    lemma_cell_box_pixels(r as int, c as int, rows as int, cols as int, cell_size as int);
                }
                let x1 = c * cell_size;
                let y1 = r * cell_size;
                let background = match solver {
                    Some(s) => s.cell_background(r, c),
                    None => white,
                };
                quad(&mut data, width, height, x1, y1, x1 + cell_size, y1 + cell_size, background);
                proof {
                    let hc = CellHandle { row: r, col: c };
                    match solver {
                        Some(sv) => {
                            assert(so == Some(*sv));
                            assert(background == sv.background_spec(hc));
                            assert(background_of(so, hc) == sv.background_spec(hc));
                        },
                        None => {
                            assert(so == None::<Djikstra>);
                            assert(background == white);
                            assert(background_of(so, hc) == white);
                        },
                    }
                    assert(background == background_of(so, hc));
                    assert forall|h: CellHandle, x: int, y: int|
                        #![trigger grid.enabled(h), pixel(data@, width as int, x, y)]
                        grid.enabled(h) && (h.row < r || (h.row == r && h.col < c + 1)) && in_image(width as int, height as int, x, y)
                            && interior(h, cell_size as int, x, y) implies pixel(data@, width as int, x, y) == background_of(so, h) by {
                        lemma_interior_apart(h, hc, cell_size as int, x, y);
                        if h != hc {
                            assert(pixel(before, width as int, x, y) == background_of(so, h));
                        }
                    }
                    assert forall|h: CellHandle, x: int, y: int|
                        #![trigger grid.enabled(h), pixel(data@, width as int, x, y)]
                        grid.enabled(h) && (h.row < r || (h.row == r && h.col < c + 1)) && in_image(width as int, height as int, x, y)
                            && (on_west_strip(h, cell_size as int, x, y) || on_north_strip(h, cell_size as int, x, y))
                            implies pixel(data@, width as int, x, y) == background_of(so, h) by {
                        lemma_strip_in_square(h, hc, cell_size as int, x, y);
                        if h != hc {
                            assert(crate::grid::row_major_before(h, hc));
                            assert(pixel(before, width as int, x, y) == background_of(so, h));
                        }
                    }
                }
            } else {
                proof {
                    assert forall|h: CellHandle, x: int, y: int|
                        #![trigger grid.enabled(h), pixel(data@, width as int, x, y)]
                        grid.enabled(h) && (h.row < r || (h.row == r && h.col < c + 1)) && in_image(width as int, height as int, x, y)
                            && interior(h, cell_size as int, x, y) implies pixel(data@, width as int, x, y) == background_of(so, h) by {
                        if h.row == r && h.col == c {
                            assert(!grid.enabled(CellHandle { row: r, col: c }));
                            assert(CellHandle { row: r, col: c } == h);
                        }
                    }
                    assert forall|h: CellHandle, x: int, y: int|
                        #![trigger grid.enabled(h), pixel(data@, width as int, x, y)]
                        grid.enabled(h) && (h.row < r || (h.row == r && h.col < c + 1)) && in_image(width as int, height as int, x, y)
                            && (on_west_strip(h, cell_size as int, x, y) || on_north_strip(h, cell_size as int, x, y))
                            implies pixel(data@, width as int, x, y) == background_of(so, h) by {
                        if h.row == r && h.col == c {
                            assert(!grid.enabled(CellHandle { row: r, col: c }));
                            assert(CellHandle { row: r, col: c } == h);
                        }
                    }
                }
            }
            c += 1;
        }
        r += 1;
    }
    proof {
        assert forall|h: CellHandle, x: int, y: int|
            #![trigger grid.enabled(h), pixel(data@, width as int, x, y)]
            grid.enabled(h) && in_image(width as int, height as int, x, y) && (on_west_strip(h, cell_size as int, x, y)
                && grid.at(h).west is Some && grid.linked(h, west_of(h)) || on_north_strip(h, cell_size as int, x, y)
                && grid.at(h).north is Some && grid.linked(h, north_of(h))) implies pixel(data@, width as int, x, y)
                == background_of(so, h) by {
            assert(h.row < rows);
        }
    }
    // the walls
    let mut r: usize = 0;
    while r < rows
        invariant
            grid.wf(),
            rows == grid.rows,
            cols == grid.cols,
            cell_size >= 1,
            width == cols * cell_size + 2,
            height == rows * cell_size + 2,
            data@.len() == width * height * 4,
            wall == (Color { r: 0, g: 0, b: 0, a: 255 }),
            r <= rows,
            cell_size >= 1,
            walls_drawn(*grid, data@, width as int, height as int, cell_size as int, r as int, 0),
            interiors_painted(*grid, so, data@, width as int, height as int, cell_size as int, rows as int, 0),
            open_sides_painted(*grid, so, data@, width as int, height as int, cell_size as int),
        decreases rows - r,
    {
        let mut c: usize = 0;
        while c < cols
            invariant
                grid.wf(),
                rows == grid.rows,
                cols == grid.cols,
                cell_size >= 1,
                width == cols * cell_size + 2,
                height == rows * cell_size + 2,
                data@.len() == width * height * 4,
                wall == (Color { r: 0, g: 0, b: 0, a: 255 }),
                r < rows,
                c <= cols,
                walls_drawn(*grid, data@, width as int, height as int, cell_size as int, r as int, c as int),
                interiors_painted(*grid, so, data@, width as int, height as int, cell_size as int, rows as int, 0),
                open_sides_painted(*grid, so, data@, width as int, height as int, cell_size as int),
            decreases cols - c,
        {
            let h = CellHandle::new(r, c);
            if let Some(cell) = grid.get(r, c) {
                proof {
                    lemma_cell_box_pixels(r as int, c as int, rows as int, cols as int, cell_size as int);
                    assert(grid.enabled(h));
                    assert(grid.cell_ok(h));
                }
                let x1 = 1 + c * cell_size;
                let y1 = 1 + r * cell_size;
                let x2 = (c + 1) * cell_size;
                let y2 = (r + 1) * cell_size;
                let ghost cell_start = data@;
                if cell.north.is_none() {
                    quad(&mut data, width, height, x1, y1, x2, y1, wall);
                }
                if cell.west.is_none() {
                    quad(&mut data, width, height, x1, y1, x1, y2, wall);
                }
                let east_open = match cell.east {
                    Some(e) => cell.holds_link(e),
                    None => false,
                };
                if !east_open {
                    quad(&mut data, width, height, x2, y1, x2, y2, wall);
                }
                let ghost mid = data@;
                let south_open = match cell.south {
                    Some(s) => cell.holds_link(s),
                    None => false,
                };
                if !south_open {
                    quad(&mut data, width, height, x1, y2, x2, y2, wall);
                }
                proof {
                    assert(east_open == !east_closed(*grid, h));
                    assert(south_open == !south_closed(*grid, h));
                    assert forall|g: CellHandle, x: int, y: int|
                        #![trigger grid.enabled(g), pixel(data@, width as int, x, y)]
                        grid.enabled(g) && g.row < rows && in_image(width as int, height as int, x, y)
                            && interior(g, cell_size as int, x, y) implies pixel(data@, width as int, x, y) == background_of(so, g) by {
                        lemma_interior_apart(g, h, cell_size as int, x, y);
                        assert(pixel(cell_start, width as int, x, y) == background_of(so, g));
                    }
                    assert forall|g: CellHandle, x: int, y: int|
                        #![trigger grid.enabled(g), pixel(data@, width as int, x, y)]
                        grid.enabled(g) && in_image(width as int, height as int, x, y) && (on_west_strip(g, cell_size as int, x, y)
                            && grid.at(g).west is Some && grid.linked(g, west_of(g)) || on_north_strip(g, cell_size as int, x, y)
                            && grid.at(g).north is Some && grid.linked(g, north_of(g))) implies pixel(data@, width as int, x, y)
                            == background_of(so, g) by {
                        lemma_strip_walls(g, h, cell_size as int, x, y);
                        assert(pixel(cell_start, width as int, x, y) == background_of(so, g));
                        assert(grid.cell_ok(g));
                        if on_east_side(h, cell_size as int, x, y) {
                            // the side is the west side of the east neighbour, with a passage
                            assert(west_of(g) == h);
                            assert(grid.at(h).east == Some(g));
                            assert(grid.linked(h, g));
                            assert(east_of(h) == g);
                        }
                        if on_south_side(h, cell_size as int, x, y) {
                            assert(north_of(g) == h);
                            assert(grid.at(h).south == Some(g));
                            assert(grid.linked(h, g));
                            assert(south_of(h) == g);
                        }
                    }
                }
            }
            c += 1;
        }
        r += 1;
    }
    (width, height, data)
}

} // verus!
