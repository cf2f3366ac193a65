use vstd::prelude::*;

use crate::cell::{Cell, CellHandle};
use crate::mask::{count_true, Mask};
use crate::distances::{bfs_distances, distances};
use crate::random::below;

verus! {

/// Whether the slot at `row`, `col` holds a cell: always, without a mask.
pub open spec fn mask_allows(mask: Option<Mask>, row: int, col: int) -> bool {
    match mask {
        Some(m) => m.enabled(row, col),
        None => true,
    }
}

pub open spec fn north_of(h: CellHandle) -> CellHandle {
    CellHandle { row: (h.row - 1) as usize, col: h.col }
}

pub open spec fn south_of(h: CellHandle) -> CellHandle {
    CellHandle { row: (h.row + 1) as usize, col: h.col }
}

pub open spec fn east_of(h: CellHandle) -> CellHandle {
    CellHandle { row: h.row, col: (h.col + 1) as usize }
}

pub open spec fn west_of(h: CellHandle) -> CellHandle {
    CellHandle { row: h.row, col: (h.col - 1) as usize }
}

/// A slot as construction leaves it: a cell exactly where the mask allows one, with
/// every enabled neighbour as its neighbour and no passage.
pub open spec fn fresh_slot(o: Option<Cell>, mask: Option<Mask>, rows: int, cols: int, i: int, j: int) -> bool {
    &&& (o is Some <==> mask_allows(mask, i, j))
    &&& (o matches Some(c) ==> {
        &&& c.row == i
        &&& c.col == j
        &&& c.links@.len() == 0
        &&& c.north == if i > 0 && mask_allows(mask, i - 1, j) {
            Some(CellHandle { row: (i - 1) as usize, col: j as usize })
        } else {
            None
        }
        &&& c.south == if i + 1 < rows && mask_allows(mask, i + 1, j) {
            Some(CellHandle { row: (i + 1) as usize, col: j as usize })
        } else {
            None
        }
        &&& c.east == if j + 1 < cols && mask_allows(mask, i, j + 1) {
            Some(CellHandle { row: i as usize, col: (j + 1) as usize })
        } else {
            None
        }
        &&& c.west == if j > 0 && mask_allows(mask, i, j - 1) {
            Some(CellHandle { row: i as usize, col: (j - 1) as usize })
        } else {
            None
        }
    })
}

/// A rectangular maze: a row-major store of optional cells, with an optional mask.
#[derive(Debug)]
pub struct Grid {
    pub rows: usize,
    pub cols: usize,
    pub mask: Option<Mask>,
    pub grid: Vec<Vec<Option<Cell>>>,
}

impl Grid {
    pub open spec fn in_bounds(&self, h: CellHandle) -> bool {
        h.row < self.rows && h.col < self.cols
    }

    pub open spec fn slot(&self, h: CellHandle) -> Option<Cell> {
        self.grid@[h.row as int]@[h.col as int]
    }

    /// There is a cell at `h`.
    pub open spec fn enabled(&self, h: CellHandle) -> bool {
        self.in_bounds(h) && self.slot(h) is Some
    }

    pub open spec fn at(&self, h: CellHandle) -> Cell {
        self.slot(h).unwrap()
    }

    /// A passage leads from `a` to `b`.
    pub open spec fn linked(&self, a: CellHandle, b: CellHandle) -> bool {
        self.enabled(a) && self.at(a).links@.contains(b)
    }

    /// `b` is a static neighbour of `a`.
    pub open spec fn adjacent(&self, a: CellHandle, b: CellHandle) -> bool {
        self.enabled(a) && self.at(a).adjacent(b)
    }

    /// The cell at `h` sits where it says, and its neighbours and passages point back at it.
    pub open spec fn cell_ok(&self, h: CellHandle) -> bool {
        let c = self.at(h);
        &&& c.row == h.row
        &&& c.col == h.col
        &&& c.links@.no_duplicates()
        &&& (c.north matches Some(n) ==> h.row > 0 && n == north_of(h) && self.enabled(n)
            && self.at(n).south == Some(h))
        &&& (c.south matches Some(n) ==> n == south_of(h) && self.enabled(n) && self.at(n).north
            == Some(h))
        &&& (c.east matches Some(n) ==> n == east_of(h) && self.enabled(n) && self.at(n).west
            == Some(h))
        &&& (c.west matches Some(n) ==> h.col > 0 && n == west_of(h) && self.enabled(n)
            && self.at(n).east == Some(h))
        &&& forall|b: CellHandle| #[trigger]
            c.links@.contains(b) ==> c.adjacent(b) && self.linked(b, h)
    }

    pub open spec fn shape_ok(&self) -> bool {
        &&& self.rows > 0
        &&& self.cols > 0
        &&& self.rows * self.cols <= usize::MAX
        &&& self.grid@.len() == self.rows
        &&& forall|r: int| 0 <= r < self.rows ==> #[trigger] self.grid@[r]@.len() == self.cols
        &&& (self.mask matches Some(m) ==> m.wf() && m.rows == self.rows && m.cols == self.cols)
    }

    /// The grid's invariant.
    pub open spec fn wf(&self) -> bool {
        &&& self.shape_ok()
        &&& forall|h: CellHandle| #[trigger]
            self.enabled(h) ==> self.cell_ok(h) && mask_allows(self.mask, h.row as int, h.col as int)
        &&& forall|h: CellHandle|
            self.in_bounds(h) && mask_allows(self.mask, h.row as int, h.col as int) ==> #[trigger] self.enabled(h)
    }

    /// No cell was orphaned: each has every enabled cell next to it as a neighbour.
    pub open spec fn unorphaned(&self) -> bool {
        forall|h: CellHandle| #[trigger]
            self.enabled(h) ==> {
                &&& (self.at(h).north is Some <==> h.row > 0 && self.enabled(north_of(h)))
                &&& (self.at(h).south is Some <==> h.row + 1 < self.rows && self.enabled(south_of(h)))
                &&& (self.at(h).east is Some <==> h.col + 1 < self.cols && self.enabled(east_of(h)))
                &&& (self.at(h).west is Some <==> h.col > 0 && self.enabled(west_of(h)))
            }
    }

    /// Every slot of the grid holds a cell.
    pub open spec fn unmasked(&self) -> bool {
        forall|h: CellHandle| #[trigger] self.in_bounds(h) ==> self.enabled(h)
    }

    /// No cell has a passage.
    pub open spec fn uncarved(&self) -> bool {
        forall|h: CellHandle| #[trigger] self.enabled(h) ==> self.at(h).links@.len() == 0
    }

    /// The same cells with the same neighbours; only passages may differ.
    pub open spec fn same_shape(&self, other: Grid) -> bool {
        &&& self.rows == other.rows
        &&& self.cols == other.cols
        &&& self.mask == other.mask
        &&& self.grid@.len() == other.grid@.len()
        &&& forall|r: int| 0 <= r < self.rows ==> #[trigger] self.grid@[r]@.len() == other.grid@[r]@.len()
        &&& forall|h: CellHandle| #[trigger] self.enabled(h) == other.enabled(h)
        &&& forall|h: CellHandle| #[trigger]
            self.enabled(h) ==> self.at(h).same_place(other.at(h))
    }

    /// Builds every slot from the mask, neighbours wired, no passages.
    fn build(rows: usize, cols: usize, mask: Option<Mask>) -> (g: Grid)
        requires
            rows > 0,
            cols > 0,
            rows * cols <= usize::MAX,
            mask matches Some(m) ==> m.wf() && m.rows == rows && m.cols == cols,
        ensures
            g.wf(),
            g.unorphaned(),
            g.uncarved(),
            g.rows == rows,
            g.cols == cols,
            g.mask == mask,
    {
        let mut grid: Vec<Vec<Option<Cell>>> = Vec::new();
        let mut r: usize = 0;
        while r < rows
            invariant
                rows > 0,
                cols > 0,
                mask matches Some(m) ==> m.wf() && m.rows == rows && m.cols == cols,
                r <= rows,
                grid@.len() == r,
                forall|i: int| 0 <= i < r ==> #[trigger] grid@[i]@.len() == cols,
                forall|i: int, j: int|
                    0 <= i < r && 0 <= j < cols ==> fresh_slot(
                        #[trigger] grid@[i]@[j],
                        mask,
                        rows as int,
                        cols as int,
                        i,
                        j,
                    ),
            decreases rows - r,
        {
            let mut line: Vec<Option<Cell>> = Vec::new();
            let mut c: usize = 0;
            while c < cols
                invariant
                    rows > 0,
                    cols > 0,
                    mask matches Some(m) ==> m.wf() && m.rows == rows && m.cols == cols,
                    r < rows,
                    c <= cols,
                    line@.len() == c,
                    forall|j: int|
                        0 <= j < c ==> fresh_slot(
                            #[trigger] line@[j],
                            mask,
                            rows as int,
                            cols as int,
                            r as int,
                            j,
                        ),
                decreases cols - c,
            {
                let slot = if allowed(&mask, r, c) {
                    let north = if r > 0 && allowed(&mask, r - 1, c) {
                        Some(CellHandle::new(r - 1, c))
                    } else {
                        None
                    };
                    let south = if r + 1 < rows && allowed(&mask, r + 1, c) {
                        Some(CellHandle::new(r + 1, c))
                    } else {
                        None
                    };
                    let east = if c + 1 < cols && allowed(&mask, r, c + 1) {
                        Some(CellHandle::new(r, c + 1))
                    } else {
                        None
                    };
                    let west = if c > 0 && allowed(&mask, r, c - 1) {
                        Some(CellHandle::new(r, c - 1))
                    } else {
                        None
                    };
                    Some(Cell { row: r, col: c, north, south, east, west, links: Vec::new() })
                } else {
                    None
                };
                line.push(slot);
                c += 1;
            }
            grid.push(line);
            r += 1;
        }
        let g = Grid { rows, cols, mask, grid };
        proof {
            assert forall|h: CellHandle| g.in_bounds(h) implies #[trigger] g.enabled(h) == mask_allows(
                mask,
                h.row as int,
                h.col as int,
            ) by {
                assert(fresh_slot(g.grid@[h.row as int]@[h.col as int], mask, rows as int, cols as int, h.row as int, h.col as int));
            }
            assert forall|h: CellHandle| #[trigger] g.enabled(h) implies g.cell_ok(h) && mask_allows(
                g.mask,
                h.row as int,
                h.col as int,
            ) && g.at(h).links@.len() == 0 by {
                assert(fresh_slot(g.grid@[h.row as int]@[h.col as int], mask, rows as int, cols as int, h.row as int, h.col as int));
                let c = g.at(h);
                if c.north is Some {
                    let n = north_of(h);
                    assert(g.in_bounds(n));
                    assert(fresh_slot(g.grid@[n.row as int]@[n.col as int], mask, rows as int, cols as int, n.row as int, n.col as int));
                }
                if c.south is Some {
                    let n = south_of(h);
                    assert(g.in_bounds(n));
                    assert(fresh_slot(g.grid@[n.row as int]@[n.col as int], mask, rows as int, cols as int, n.row as int, n.col as int));
                }
                if c.east is Some {
                    let n = east_of(h);
                    assert(g.in_bounds(n));
                    assert(fresh_slot(g.grid@[n.row as int]@[n.col as int], mask, rows as int, cols as int, n.row as int, n.col as int));
                }
                if c.west is Some {
                    let n = west_of(h);
                    assert(g.in_bounds(n));
                    assert(fresh_slot(g.grid@[n.row as int]@[n.col as int], mask, rows as int, cols as int, n.row as int, n.col as int));
                }
            }
            assert forall|h: CellHandle| #[trigger] g.enabled(h) implies {
                &&& (g.at(h).north is Some <==> h.row > 0 && g.enabled(north_of(h)))
                &&& (g.at(h).south is Some <==> h.row + 1 < g.rows && g.enabled(south_of(h)))
                &&& (g.at(h).east is Some <==> h.col + 1 < g.cols && g.enabled(east_of(h)))
                &&& (g.at(h).west is Some <==> h.col > 0 && g.enabled(west_of(h)))
            } by {
                assert(fresh_slot(g.grid@[h.row as int]@[h.col as int], mask, rows as int, cols as int, h.row as int, h.col as int));
                if h.row > 0 {
                    let n = north_of(h);
                    assert(fresh_slot(g.grid@[n.row as int]@[n.col as int], mask, rows as int, cols as int, n.row as int, n.col as int));
                }
                if h.row + 1 < rows {
                    let n = south_of(h);
                    assert(fresh_slot(g.grid@[n.row as int]@[n.col as int], mask, rows as int, cols as int, n.row as int, n.col as int));
                }
                if h.col + 1 < cols {
                    let n = east_of(h);
                    assert(fresh_slot(g.grid@[n.row as int]@[n.col as int], mask, rows as int, cols as int, n.row as int, n.col as int));
                }
                if h.col > 0 {
                    let n = west_of(h);
                    assert(fresh_slot(g.grid@[n.row as int]@[n.col as int], mask, rows as int, cols as int, n.row as int, n.col as int));
                }
            }
        }
        g
    }

    /// A grid of the given size with every slot enabled.
    pub fn new(rows: usize, cols: usize) -> (g: Grid)
        requires
            rows > 0,
            cols > 0,
            rows * cols <= usize::MAX,
        ensures
            g.wf(),
            g.unorphaned(),
            g.unmasked(),
            g.uncarved(),
            g.rows == rows,
            g.cols == cols,
            g.mask is None,
    {
        let g = Grid::build(rows, cols, None);
        proof {
            assert forall|h: CellHandle| #[trigger] g.in_bounds(h) implies g.enabled(h) by {
                assert(mask_allows(g.mask, h.row as int, h.col as int));
            }
        }
        g
    }

    /// A grid shaped by the mask: a cell wherever the mask enables one.
    pub fn from_mask(mask: Mask) -> (g: Grid)
        requires
            mask.wf(),
        ensures
            g.wf(),
            g.unorphaned(),
            g.uncarved(),
            g.rows == mask.rows,
            g.cols == mask.cols,
            g.mask == Some(mask),
            forall|h: CellHandle| #[trigger]
                g.in_bounds(h) ==> (g.enabled(h) == mask.enabled(h.row as int, h.col as int)),
    {
        let rows = mask.rows;
        let cols = mask.cols;
        let ghost m = mask;
        let g = Grid::build(rows, cols, Some(mask));
        proof {
            assert forall|h: CellHandle| #[trigger] g.in_bounds(h) implies (g.enabled(h) == m.enabled(
                h.row as int,
                h.col as int,
            )) by {
                assert(mask_allows(g.mask, h.row as int, h.col as int) == m.enabled(h.row as int, h.col as int));
            }
        }
        g
    }

    /// The number of rows.
    pub fn rows(&self) -> (n: usize)
        ensures
            n == self.rows,
    {
        self.rows
    }

    /// The number of columns.
    pub fn columns(&self) -> (n: usize)
        ensures
            n == self.cols,
    {
        self.cols
    }

    /// The number of slots, enabled or not.
    pub fn size(&self) -> (n: usize)
        requires
            self.wf(),
        ensures
            n == self.rows * self.cols,
    {
        self.rows * self.cols
    }

    /// The number of cells the mask enables: every slot without a mask.
    pub open spec fn enabled_count_spec(&self) -> nat {
        match self.mask {
            Some(m) => count_true(m.bits()),
            None => (self.rows * self.cols) as nat,
        }
    }

    /// The number of enabled cells.
    pub fn enabled_count(&self) -> (n: usize)
        requires
            self.wf(),
        ensures
            n == self.enabled_count_spec(),
    {
        match &self.mask {
            Some(m) => m.count(),
            None => self.rows * self.cols,
        }
    }

    /// The cell at `row`, `col`, if the slot is in the grid and enabled.
    pub fn get(&self, row: usize, col: usize) -> (r: Option<&Cell>)
        requires
            self.wf(),
        ensures
            r is Some <==> self.enabled(CellHandle { row, col }),
            r matches Some(c) ==> *c == self.at(CellHandle { row, col }),
    {
        if row < self.rows && col < self.cols {
            self.grid[row][col].as_ref()
        } else {
            None
        }
    }

    /// The handles of all enabled cells, row by row.
    pub fn handles(&self) -> (v: Vec<CellHandle>)
        requires
            self.wf(),
        ensures
            v@.no_duplicates(),
            forall|i: int, j: int| 0 <= i < j < v@.len() ==> row_major_before(#[trigger] v@[i], #[trigger] v@[j]),
            forall|h: CellHandle| v@.contains(h) <==> self.enabled(h),
    {
        let mut v: Vec<CellHandle> = Vec::new();
        let mut r: usize = 0;
        while r < self.rows
            invariant
                self.wf(),
                r <= self.rows,
                v@.no_duplicates(),
                forall|i: int| 0 <= i < v@.len() ==> (#[trigger] v@[i]).row < r,
                forall|i: int, j: int| 0 <= i < j < v@.len() ==> row_major_before(#[trigger] v@[i], #[trigger] v@[j]),
                forall|h: CellHandle| v@.contains(h) <==> self.enabled(h) && h.row < r,
            decreases self.rows - r,
        {
            let mut c: usize = 0;
            while c < self.cols
                invariant
                    self.wf(),
                    r < self.rows,
                    c <= self.cols,
                    v@.no_duplicates(),
                    forall|i: int| 0 <= i < v@.len() ==> (#[trigger] v@[i]).row < r || (v@[i].row == r && v@[i].col < c),
                    forall|i: int, j: int| 0 <= i < j < v@.len() ==> row_major_before(#[trigger] v@[i], #[trigger] v@[j]),
                    forall|h: CellHandle|
                        v@.contains(h) <==> self.enabled(h) && (h.row < r || (h.row == r && h.col < c)),
                decreases self.cols - c,
            {
                let h = CellHandle::new(r, c);
                if self.grid[r][c].is_some() {
                    let ghost before = v@;
                    proof {
                        assert(!v@.contains(h));
                    }
                    v.push(h);
                    proof {
                        assert(v@ == before.push(h));
                        assert forall|x: CellHandle| v@.contains(x) <==> self.enabled(x) && (x.row
                            < r || (x.row == r && x.col < c + 1)) by {
                            if v@.contains(x) && x != h {
                                let k = v@.index_of(x);
                                assert(before[k] == x);
                            }
                            if self.enabled(x) && (x.row < r || (x.row == r && x.col < c + 1)) && x != h {
                                assert(before.contains(x));
                                let k = before.index_of(x);
                                assert(v@[k] == x);
                            }
                            if x == h {
                                assert(v@[v@.len() - 1] == h);
                            }
                        }
                    }
                }
                c += 1;
            }
            r += 1;
        }
        v
    }

    /// Only the cell at `h` may differ, and it stays in place with the same neighbours.
    pub open spec fn differs_at_most_at(&self, other: Grid, h: CellHandle) -> bool {
        &&& self.rows == other.rows
        &&& self.cols == other.cols
        &&& self.mask == other.mask
        &&& self.grid@.len() == other.grid@.len()
        &&& forall|r: int| 0 <= r < self.rows ==> #[trigger] self.grid@[r]@.len() == other.grid@[r]@.len()
        &&& forall|x: CellHandle| self.in_bounds(x) && x != h ==> #[trigger] self.slot(x) == other.slot(x)
        &&& self.slot(h) is Some
        &&& self.at(h).same_place(other.at(h))
    }

    /// Adds `other` to the passages of the cell at `h`, on that side only.
    fn add_link(&mut self, h: CellHandle, other: CellHandle)
        requires
            old(self).shape_ok(),
            old(self).enabled(h),
            old(self).at(h).has_neighbors_spec(),
        ensures
            final(self).differs_at_most_at(*old(self), h),
            final(self).at(h).links@ == if old(self).at(h).links@.contains(other) {
                old(self).at(h).links@
            } else {
                old(self).at(h).links@.push(other)
            },
    {
        let line = &mut self.grid[h.row];
        match &mut line[h.col] {
            Some(cell) => cell.link(other),
            None => {},
        }
    }

    /// Removes `other` from the passages of the cell at `h`, on that side only.
    fn remove_link(&mut self, h: CellHandle, other: CellHandle)
        requires
            old(self).shape_ok(),
            old(self).enabled(h),
            old(self).at(h).links@.no_duplicates(),
        ensures
            final(self).differs_at_most_at(*old(self), h),
            final(self).at(h).links@.no_duplicates(),
            forall|x: CellHandle|
                final(self).at(h).links@.contains(x) <==> (old(self).at(h).links@.contains(x) && x
                    != other),
    {
        let line = &mut self.grid[h.row];
        match &mut line[h.col] {
            Some(cell) => cell.unlink(other),
            None => {},
        }
    }

    /// A cell's neighbours are four different cells, so its neighbour list has no repeat.
    pub proof fn lemma_neighbors_distinct(&self, h: CellHandle)
        requires
            self.wf(),
            self.enabled(h),
        ensures
            self.at(h).neighbor_seq().no_duplicates(),
    {
        assert(self.cell_ok(h));
        let c = self.at(h);
        let s = c.neighbor_seq();
        assert forall|i: int, j: int| 0 <= i < s.len() && 0 <= j < s.len() && i != j implies s[i] != s[j] by {
            let a = crate::cell::some_count(c.north);
            let b = a + crate::cell::some_count(c.south);
            let d = b + crate::cell::some_count(c.east);
            assert(s.len() == d + crate::cell::some_count(c.west));
            if let Some(n) = c.north { assert(s[0] == n); }
            if let Some(n) = c.south { assert(s[a] == n); }
            if let Some(n) = c.east { assert(s[b] == n); }
            if let Some(n) = c.west { assert(s[d] == n); }
        }
    }

    /// Neighbours know each other: `b` next to `a` means `a` next to `b`.
    pub proof fn lemma_adjacent_symmetric(&self, a: CellHandle, b: CellHandle)
        requires
            self.wf(),
            self.adjacent(a, b),
        ensures
            self.enabled(b),
            self.adjacent(b, a),
            a != b,
    {
        assert(self.cell_ok(a));
    }

    /// A grid whose passages changed stays well formed when each passage joins two
    /// neighbours and is recorded on both sides.
    pub proof fn lemma_relinked_wf(&self, old: Grid)
        requires
            old.wf(),
            self.same_shape(old),
            forall|h: CellHandle| #[trigger] self.enabled(h) ==> self.at(h).links@.no_duplicates(),
            forall|h: CellHandle, b: CellHandle| #[trigger]
                self.linked(h, b) ==> old.adjacent(h, b) && self.linked(b, h),
        ensures
            self.wf(),
    {
        assert forall|h: CellHandle| #[trigger] self.enabled(h) implies self.cell_ok(h)
            && mask_allows(self.mask, h.row as int, h.col as int) by {
            assert(old.enabled(h));
            assert(old.cell_ok(h));
            assert(self.at(h).same_place(old.at(h)));
            let c = self.at(h);
            if let Some(n) = c.north {
                assert(old.enabled(n));
                assert(self.enabled(n));
                assert(self.at(n).same_place(old.at(n)));
            }
            if let Some(n) = c.south {
                assert(old.enabled(n));
                assert(self.enabled(n));
                assert(self.at(n).same_place(old.at(n)));
            }
            if let Some(n) = c.east {
                assert(old.enabled(n));
                assert(self.enabled(n));
                assert(self.at(n).same_place(old.at(n)));
            }
            if let Some(n) = c.west {
                assert(old.enabled(n));
                assert(self.enabled(n));
                assert(self.at(n).same_place(old.at(n)));
            }
            assert forall|b: CellHandle| #[trigger] c.links@.contains(b) implies c.adjacent(b)
                && self.linked(b, h) by {
                assert(self.linked(h, b));
            }
        }
        assert forall|h: CellHandle|
            self.in_bounds(h) && mask_allows(self.mask, h.row as int, h.col as int) implies #[trigger] self.enabled(h) by {
            assert(old.enabled(h));
        }
    }

    /// Changing passages keeps a grid unmasked and unorphaned.
    pub proof fn lemma_same_shape_keeps(&self, old: Grid)
        requires
            self.same_shape(old),
        ensures
            old.unmasked() ==> self.unmasked(),
            old.unorphaned() ==> self.unorphaned(),
    {
        if old.unmasked() {
            assert forall|h: CellHandle| #[trigger] self.in_bounds(h) implies self.enabled(h) by {
                assert(old.in_bounds(h));
            }
        }
        if old.unorphaned() {
            assert forall|h: CellHandle| #[trigger] self.enabled(h) implies {
                &&& (self.at(h).north is Some <==> h.row > 0 && self.enabled(north_of(h)))
                &&& (self.at(h).south is Some <==> h.row + 1 < self.rows && self.enabled(south_of(h)))
                &&& (self.at(h).east is Some <==> h.col + 1 < self.cols && self.enabled(east_of(h)))
                &&& (self.at(h).west is Some <==> h.col > 0 && self.enabled(west_of(h)))
            } by {
                assert(old.enabled(h));
                assert(self.enabled(north_of(h)) == old.enabled(north_of(h)));
                assert(self.enabled(south_of(h)) == old.enabled(south_of(h)));
                assert(self.enabled(east_of(h)) == old.enabled(east_of(h)));
                assert(self.enabled(west_of(h)) == old.enabled(west_of(h)));
            }
        }
    }

    /// Carves a passage between two neighbouring cells, on both sides.
    pub fn link_cells(&mut self, a: CellHandle, b: CellHandle)
        requires
            old(self).wf(),
            old(self).adjacent(a, b),
        ensures
            final(self).wf(),
            final(self).same_shape(*old(self)),
            forall|x: CellHandle, y: CellHandle| #[trigger]
                final(self).linked(x, y) <==> (old(self).linked(x, y) || (x == a && y == b) || (x
                    == b && y == a)),
    {
        proof {
            old(self).lemma_adjacent_symmetric(a, b);
        }
        let ghost g0 = *self;
        self.add_link(a, b);
        let ghost g1 = *self;
        proof {
            assert(g1.slot(b) == g0.slot(b));
            assert(g1.enabled(b));
            assert(g0.at(b).adjacent(a));
        }
        self.add_link(b, a);
        proof {
            let g2 = *self;
            assert(g2.same_shape(g0)) by {
                assert forall|h: CellHandle| #[trigger] g2.enabled(h) == g0.enabled(h) by {
                    if g2.in_bounds(h) && h != a && h != b {
                        assert(g1.slot(h) == g0.slot(h));
                    }
                }
                assert forall|h: CellHandle| #[trigger] g2.enabled(h) implies g2.at(h).same_place(
                    g0.at(h),
                ) by {
                    if h != a && h != b {
                        assert(g1.slot(h) == g0.slot(h));
                    }
                    if h == a {
                        assert(g1.slot(h) == g2.slot(h));
                    }
                }
            }
            assert forall|x: CellHandle, y: CellHandle| #[trigger]
                g2.linked(x, y) <==> (g0.linked(x, y) || (x == a && y == b) || (x == b && y == a)) by {
                if g2.in_bounds(x) && x != a && x != b {
                    assert(g1.slot(x) == g0.slot(x));
                    assert(g2.slot(x) == g1.slot(x));
                }
                if x == a {
                    assert(g1.slot(x) == g2.slot(x));
                    lemma_push_contains(g0.at(a).links@, b, y);
                }
                if x == b {
                    assert(g1.slot(x) == g0.slot(x));
                    lemma_push_contains(g1.at(b).links@, a, y);
                }
            }
            assert forall|h: CellHandle| #[trigger] g2.enabled(h) implies g2.at(h).links@.no_duplicates() by {
                assert(g0.cell_ok(h));
                if h != a && h != b {
                    assert(g1.slot(h) == g0.slot(h));
                }
                if h == a {
                    assert(g1.slot(h) == g2.slot(h));
                }
            }
            assert forall|h: CellHandle, c: CellHandle| #[trigger]
                g2.linked(h, c) implies g0.adjacent(h, c) && g2.linked(c, h) by {
                if g0.linked(h, c) {
                    assert(g0.cell_ok(h));
                    assert(g0.linked(c, h));
                }
            }
            g2.lemma_relinked_wf(g0);
        }
    }

    /// Removes the passage between two cells, on both sides.
    pub fn unlink_cells(&mut self, a: CellHandle, b: CellHandle)
        requires
            old(self).wf(),
        ensures
            final(self).wf(),
            final(self).same_shape(*old(self)),
            forall|x: CellHandle, y: CellHandle| #[trigger]
                final(self).linked(x, y) <==> (old(self).linked(x, y) && !(x == a && y == b) && !(x
                    == b && y == a)),
    {
        let ghost g0 = *self;
        if a.row < self.rows && a.col < self.cols && self.grid[a.row][a.col].is_some() {
            proof {
                assert(g0.enabled(a));
                assert(g0.cell_ok(a));
            }
            self.remove_link(a, b);
        }
        let ghost g1 = *self;
        if b.row < self.rows && b.col < self.cols && self.grid[b.row][b.col].is_some() {
            proof {
                assert(g1.enabled(b));
                if b != a {
                    assert(g1.slot(b) == g0.slot(b));
                    assert(g0.enabled(b));
                    assert(g0.cell_ok(b));
                }
            }
            self.remove_link(b, a);
        }
        proof {
            let g2 = *self;
            assert(g1.shape_ok());
            assert forall|x: CellHandle| #[trigger] g2.in_bounds(x) && x != a && x != b implies g2.slot(x) == g0.slot(x) by {
                assert(g1.slot(x) == g0.slot(x));
            }
            assert(g2.same_shape(g0)) by {
                assert forall|h: CellHandle| #[trigger] g2.enabled(h) == g0.enabled(h) by {
                    if g2.in_bounds(h) && (h == a || h == b) {
                        assert(g1.enabled(h) == g0.enabled(h));
                    }
                }
                assert forall|h: CellHandle| #[trigger] g2.enabled(h) implies g2.at(h).same_place(
                    g0.at(h),
                ) by {
                    if h == a || h == b {
                        assert(g1.enabled(h) == g0.enabled(h));
                        if h == a && a != b && g0.enabled(b) {
                            assert(g1.slot(h) == g2.slot(h));
                        }
                    }
                }
            }
            assert forall|x: CellHandle, y: CellHandle| #[trigger]
                g2.linked(x, y) <==> (g0.linked(x, y) && !(x == a && y == b) && !(x == b && y == a)) by {
                if g2.in_bounds(x) {
                    if x != a && x != b {
                        assert(g1.slot(x) == g0.slot(x));
                        assert(g2.slot(x) == g1.slot(x));
                    } else if x == a && a != b {
                        if g0.enabled(b) {
                            assert(g2.slot(x) == g1.slot(x));
                        }
                    } else if x == b && a != b {
                        if g0.enabled(a) {
                            assert(g1.slot(x) == g0.slot(x));
                        }
                    }
                }
            }
            assert forall|h: CellHandle| #[trigger] g2.enabled(h) implies g2.at(h).links@.no_duplicates() by {
                assert(g0.cell_ok(h));
                if h == a && a != b && g0.enabled(b) {
                    assert(g1.slot(h) == g2.slot(h));
                }
                if h == b && a != b && g0.enabled(a) {
                    assert(g1.slot(h) == g0.slot(h));
                }
            }
            assert forall|h: CellHandle, c: CellHandle| #[trigger]
                g2.linked(h, c) implies g0.adjacent(h, c) && g2.linked(c, h) by {
                assert(g0.linked(h, c));
                assert(g0.cell_ok(h));
                assert(g0.linked(c, h));
            }
            g2.lemma_relinked_wf(g0);
        }
    }

    /// Carves every passage of the list, each between two neighbours.
    pub fn link_cells_multi(&mut self, links: &Vec<(CellHandle, CellHandle)>)
        requires
            old(self).wf(),
            forall|i: int| 0 <= i < links@.len() ==> old(self).adjacent(#[trigger] links@[i].0, links@[i].1),
        ensures
            final(self).wf(),
            final(self).same_shape(*old(self)),
            forall|x: CellHandle, y: CellHandle| #[trigger]
                final(self).linked(x, y) <==> (old(self).linked(x, y) || exists|i: int|
                    0 <= i < links@.len() && (links@[i] == (x, y) || links@[i] == (y, x))),
    {
        let mut k: usize = 0;
        while k < links.len()
            invariant
                self.wf(),
                self.same_shape(*old(self)),
                k <= links@.len(),
                forall|i: int| 0 <= i < links@.len() ==> old(self).adjacent(#[trigger] links@[i].0, links@[i].1),
                forall|x: CellHandle, y: CellHandle| #[trigger]
                    self.linked(x, y) <==> (old(self).linked(x, y) || exists|i: int|
                        0 <= i < k && (links@[i] == (x, y) || links@[i] == (y, x))),
            decreases links@.len() - k,
        {
            let (a, b) = links[k];
            proof {
                assert(old(self).adjacent(links@[k as int].0, links@[k as int].1));
                assert(self.enabled(a));
                assert(self.at(a).same_place(old(self).at(a)));
            }
            let ghost before = *self;
            self.link_cells(a, b);
            proof {
                assert forall|x: CellHandle, y: CellHandle| #[trigger]
                    self.linked(x, y) <==> (old(self).linked(x, y) || exists|i: int|
                        0 <= i < k + 1 && (links@[i] == (x, y) || links@[i] == (y, x))) by {
                    if (x == a && y == b) || (x == b && y == a) {
                        assert(links@[k as int] == (a, b));
                    }
                    if exists|i: int| 0 <= i < k + 1 && (links@[i] == (x, y) || links@[i] == (y, x)) {
                        let i = choose|i: int| 0 <= i < k + 1 && (links@[i] == (x, y) || links@[i] == (y, x));
                        if i < k {
                            assert(before.linked(x, y));
                        }
                    }
                }
            }
            k += 1;
        }
    }

    /// Whether some cell has no neighbour.
    pub fn has_orphans(&self) -> (b: bool)
        requires
            self.wf(),
        ensures
            b == exists|h: CellHandle| self.enabled(h) && !self.at(h).has_neighbors_spec(),
    {
        let hs = self.handles();
        let mut i: usize = 0;
        while i < hs.len()
            invariant
                self.wf(),
                i <= hs@.len(),
                forall|h: CellHandle| hs@.contains(h) <==> self.enabled(h),
                forall|j: int| 0 <= j < i ==> self.at(#[trigger] hs@[j]).has_neighbors_spec(),
            decreases hs@.len() - i,
        {
            let h = hs[i];
            proof {
                assert(hs@.contains(h));
                assert(self.enabled(h));
            }
            if !self.get(h.row, h.col).unwrap().has_neighbors() {
                return true;
            }
            i += 1;
        }
        proof {
            assert forall|h: CellHandle| self.enabled(h) implies self.at(h).has_neighbors_spec() by {
                assert(hs@.contains(h));
                let j = hs@.index_of(h);
                assert(hs@[j] == h);
            }
        }
        false
    }

    /// The dead ends: the cells with exactly one passage, row by row.
    pub fn get_dead_ends(&self) -> (v: Vec<CellHandle>)
        requires
            self.wf(),
        ensures
            v@.no_duplicates(),
            forall|i: int, j: int| 0 <= i < j < v@.len() ==> row_major_before(#[trigger] v@[i], #[trigger] v@[j]),
            forall|h: CellHandle|
                v@.contains(h) <==> self.enabled(h) && self.at(h).links@.len() == 1,
    {
        let hs = self.handles();
        let mut v: Vec<CellHandle> = Vec::new();
        let mut i: usize = 0;
        while i < hs.len()
            invariant
                self.wf(),
                i <= hs@.len(),
                hs@.no_duplicates(),
                forall|i: int, j: int| 0 <= i < j < hs@.len() ==> row_major_before(#[trigger] hs@[i], #[trigger] hs@[j]),
                forall|h: CellHandle| hs@.contains(h) <==> self.enabled(h),
                v@.no_duplicates(),
                forall|i: int, j: int| 0 <= i < j < v@.len() ==> row_major_before(#[trigger] v@[i], #[trigger] v@[j]),
                forall|k: int, j: int| 0 <= k < v@.len() && i <= j < hs@.len() ==> row_major_before(#[trigger] v@[k], #[trigger] hs@[j]),
                forall|h: CellHandle| #[trigger]
                    v@.contains(h) <==> hs@.subrange(0, i as int).contains(h) && self.enabled(h)
                        && self.at(h).links@.len() == 1,
            decreases hs@.len() - i,
        {
            let h = hs[i];
            proof {
                assert(hs@.contains(h));
                assert(self.enabled(h));
            }
            let ghost before = v@;
            proof {
                assert(CellHandle { row: h.row, col: h.col } == h);
            }
            let dead = self.get(h.row, h.col).unwrap().links.len() == 1;
            proof {
                assert(dead == (self.at(h).links@.len() == 1));
                assert(hs@.subrange(0, i as int + 1) =~= hs@.subrange(0, i as int).push(h));
                assert(hs@.subrange(0, (i + 1) as int) =~= hs@.subrange(0, i as int).push(h));
                if dead && before.contains(h) {
                    let k = hs@.subrange(0, i as int).index_of(h);
                    assert(hs@[k] == h);
                    assert(hs@[i as int] == h);
                }
            }
            if dead {
                v.push(h);
                proof {
                    assert forall|a: int, b: int| 0 <= a < v@.len() && 0 <= b < v@.len() && a != b implies v@[a] != v@[b] by {
                        if a < before.len() && b < before.len() {
                            assert(v@[a] == before[a] && v@[b] == before[b]);
                        } else if a < before.len() {
                            assert(before.contains(v@[a]));
                        } else if b < before.len() {
                            assert(before.contains(v@[b]));
                        }
                    }
                }
            }
            i += 1;
            proof {
                assert forall|x: CellHandle| #[trigger]
                    v@.contains(x) <==> hs@.subrange(0, i as int).contains(x) && self.enabled(x)
                        && self.at(x).links@.len() == 1 by {
                    lemma_push_contains(hs@.subrange(0, i as int - 1), h, x);
                    assert(hs@.subrange(0, i as int).contains(x) <==> (hs@.subrange(0, i as int - 1).contains(x) || x == h));
                    if dead {
                        lemma_push_contains(before, h, x);
                        assert(v@ == before.push(h));
                        assert(v@.contains(x) <==> before.contains(x) || x == h);
                    } else {
                        assert(v@ == before);
                    }
                    if x == h {
                        assert(self.enabled(h));
                    }
                    assert(before.contains(x) <==> hs@.subrange(0, i as int - 1).contains(x) && self.enabled(x)
                        && self.at(x).links@.len() == 1);
                }
            }
        }
        proof {
            assert(hs@.subrange(0, hs@.len() as int) == hs@);
        }
        v
    }

    /// The first enabled cell, row by row.
    pub open spec fn first_cell_spec(&self) -> CellHandle {
        choose|h: CellHandle| self.enabled(h) && forall|x: CellHandle| #[trigger] self.enabled(x) ==> h.row < x.row
            || (h.row == x.row && h.col <= x.col)
    }

    /// The first enabled cell, row by row.
    pub fn first_cell(&self) -> (h: CellHandle)
        requires
            self.wf(),
            self.has_cells(),
        ensures
            self.enabled(h),
            h == self.first_cell_spec(),
    {
        let mut r: usize = 0;
        while r < self.rows
            invariant
                self.wf(),
                self.has_cells(),
                r <= self.rows,
                forall|x: CellHandle| #[trigger] self.enabled(x) ==> x.row >= r,
            decreases self.rows - r,
        {
            let mut c: usize = 0;
            while c < self.cols
                invariant
                    self.wf(),
                    r < self.rows,
                    c <= self.cols,
                    forall|x: CellHandle| #[trigger] self.enabled(x) ==> x.row > r || (x.row == r && x.col >= c),
                decreases self.cols - c,
            {
                if self.grid[r][c].is_some() {
                    let h = CellHandle::new(r, c);
                    proof {
                        assert(self.enabled(h));
                        let p = |h: CellHandle| self.enabled(h) && forall|x: CellHandle| #[trigger] self.enabled(x) ==> h.row < x.row
                            || (h.row == x.row && h.col <= x.col);
                        assert(p(h));
                        let q = self.first_cell_spec();
                        assert(p(q));
                        assert(self.enabled(q));
                    }
                    return h;
                }
                proof {
                    assert forall|x: CellHandle| #[trigger] self.enabled(x) implies x.row > r || (x.row == r && x.col >= c + 1) by {
                        if x.row == r && x.col == c {
                            assert(CellHandle { row: r, col: c } == x);
                        }
                    }
                }
                c += 1;
            }
            r += 1;
        }
        proof {
            let w = choose|h: CellHandle| self.enabled(h);
            assert(self.enabled(w));
        }
        CellHandle::new(0, 0)
    }

    /// The two ends of a longest path: the cell farthest from the first cell, and the cell
    /// farthest from that one.
    pub fn longest_path(&self) -> (r: ((usize, usize), (usize, usize)))
        requires
            self.wf(),
            self.has_cells(),
        ensures
            ({
                let a = CellHandle { row: r.0.0, col: r.0.1 };
                let b = CellHandle { row: r.1.0, col: r.1.1 };
                &&& self.enabled(a)
                &&& self.enabled(b)
                // `a` is a farthest cell from the first cell
                &&& exists|d: Map<CellHandle, usize>|
                    bfs_distances(*self, self.first_cell_spec(), d) && d.contains_key(a) && forall|x: CellHandle| #[trigger]
                        d.contains_key(x) ==> d[x] <= d[a]
                // `b` is a farthest cell from `a`
                &&& exists|d: Map<CellHandle, usize>|
                    bfs_distances(*self, a, d) && d.contains_key(b) && forall|x: CellHandle| #[trigger]
                        d.contains_key(x) ==> d[x] <= d[b]
            }),
    {
        let start = self.first_cell();
        let first = distances(self, start);
        let (a, _) = first.max_distance();
        proof {
            assert(first@.contains_key(start));
            assert(first@.contains_key(a));
            assert(self.enabled(a));
            assert(bfs_distances(*self, self.first_cell_spec(), first@) && first@.contains_key(a) && forall|x: CellHandle| #[trigger]
                first@.contains_key(x) ==> first@[x] <= first@[a]);
        }
        let second = distances(self, a);
        let (b, db) = second.max_distance();
        proof {
            assert(second@.contains_key(a));
            assert(second@.contains_key(b));
            assert(self.enabled(b));
            assert(bfs_distances(*self, a, second@) && second@.contains_key(b) && forall|x: CellHandle| #[trigger]
                second@.contains_key(x) ==> second@[x] <= second@[b]);
            assert(CellHandle { row: a.row, col: a.col } == a);
            assert(CellHandle { row: b.row, col: b.col } == b);
            assert(exists|d: Map<CellHandle, usize>|
                bfs_distances(*self, a, d) && d.contains_key(b) && forall|x: CellHandle| #[trigger]
                    d.contains_key(x) ==> d[x] <= d[b]);
        }
        let r = (a.unpack(), b.unpack());
        proof {
            assert(CellHandle { row: r.0.0, col: r.0.1 } == a);
            assert(CellHandle { row: r.1.0, col: r.1.1 } == b);
        }
        r
    }

    /// The maze drawn in text: `+` corners, `-` and `|` walls, blanks where passages are.
    pub fn render_ascii(&self) -> (s: String)
        requires
            self.wf(),
        ensures
            s@ == crate::render::ascii_text(*self, None),
    {
        crate::render::render_ascii_internal(self, None)
    }

    /// Makes the cell at `x` forget `h`: each of its sides that named `h` is cleared.
    fn forget(&mut self, x: CellHandle, h: CellHandle)
        requires
            old(self).shape_ok(),
            old(self).enabled(x),
        ensures
            final(self).slot(x) is Some,
            forgets(old(self).at(x), final(self).at(x), Some(h)),
            final(self).rows == old(self).rows,
            final(self).cols == old(self).cols,
            final(self).mask == old(self).mask,
            final(self).grid@.len() == old(self).grid@.len(),
            forall|r: int| 0 <= r < final(self).rows ==> #[trigger] final(self).grid@[r]@.len() == old(self).grid@[r]@.len(),
            forall|y: CellHandle| final(self).in_bounds(y) && y != x ==> #[trigger] final(self).slot(y) == old(self).slot(y),
    {
        let line = &mut self.grid[x.row];
        match &mut line[x.col] {
            Some(cell) => {
                if cell.north == Some(h) {
                    cell.north = None;
                }
                if cell.south == Some(h) {
                    cell.south = None;
                }
                if cell.east == Some(h) {
                    cell.east = None;
                }
                if cell.west == Some(h) {
                    cell.west = None;
                }
            },
            None => {},
        }
    }

    /// Disables the cell at `row`, `col` after construction: its passages are removed on
    /// both sides, its neighbours forget it, and it forgets them.
    pub fn orphan(&mut self, row: usize, col: usize)
        requires
            old(self).wf(),
        ensures
            final(self).wf(),
            final(self).rows == old(self).rows,
            final(self).cols == old(self).cols,
            final(self).mask == old(self).mask,
            forall|x: CellHandle| #[trigger] final(self).enabled(x) == old(self).enabled(x),
            old(self).enabled(CellHandle { row, col }) ==> !final(self).at(CellHandle { row, col }).has_neighbors_spec(),
            forall|x: CellHandle, y: CellHandle| #[trigger] final(self).adjacent(x, y) <==> old(self).adjacent(x, y)
                && x != (CellHandle { row, col }) && y != (CellHandle { row, col }),
            forall|x: CellHandle, y: CellHandle| #[trigger] final(self).linked(x, y) <==> old(self).linked(x, y)
                && x != (CellHandle { row, col }) && y != (CellHandle { row, col }),
    {
        let h = CellHandle::new(row, col);
        if row >= self.rows || col >= self.cols || self.grid[row][col].is_none() {
            return;
        }
        proof {
            assert(self.enabled(h));
        }
        // remove the passages first
        let passages = self.get(row, col).unwrap().copy_links();
        let mut k: usize = 0;
        while k < passages.len()
            invariant
                old(self).wf(),
                self.wf(),
                self.same_shape(*old(self)),
                self.enabled(h),
                k <= passages@.len(),
                passages@ == old(self).at(h).links@,
                forall|x: CellHandle, y: CellHandle| #[trigger] self.linked(x, y) <==> old(self).linked(x, y)
                    && !(x == h && passages@.subrange(0, k as int).contains(y))
                    && !(y == h && passages@.subrange(0, k as int).contains(x)),
            decreases passages@.len() - k,
        {
            let n = passages[k];
            let ghost before = *self;
            self.unlink_cells(h, n);
            k += 1;
            proof {
                assert(passages@.subrange(0, k as int) =~= passages@.subrange(0, k as int - 1).push(n));
                assert forall|x: CellHandle, y: CellHandle| #[trigger] self.linked(x, y) <==> old(self).linked(x, y)
                    && !(x == h && passages@.subrange(0, k as int).contains(y))
                    && !(y == h && passages@.subrange(0, k as int).contains(x)) by {
                    crate::grid::lemma_push_contains(passages@.subrange(0, k as int - 1), n, x);
                    crate::grid::lemma_push_contains(passages@.subrange(0, k as int - 1), n, y);
                    assert(before.linked(x, y) <==> old(self).linked(x, y)
                        && !(x == h && passages@.subrange(0, k as int - 1).contains(y))
                        && !(y == h && passages@.subrange(0, k as int - 1).contains(x)));
                }
            }
        }
        proof {
            assert forall|x: CellHandle, y: CellHandle| #[trigger] self.linked(x, y) <==> old(self).linked(x, y)
                && x != h && y != h by {
                assert(passages@.subrange(0, passages@.len() as int) =~= passages@);
                if old(self).linked(x, y) && (x == h || y == h) {
                    let other = if x == h { y } else { x };
                    assert(old(self).cell_ok(x));
                    assert(old(self).linked(h, other));
                }
            }
        }
        let ghost g1 = *self;
        // every cell forgets it, and it forgets every cell
        let all = self.handles();
        let mut i: usize = 0;
        while i < all.len()
            invariant
                g1.wf(),
                self.shape_ok(),
                self.rows == g1.rows,
                self.cols == g1.cols,
                self.mask == g1.mask,
                self.grid@.len() == g1.grid@.len(),
                forall|r: int| 0 <= r < self.rows ==> #[trigger] self.grid@[r]@.len() == g1.grid@[r]@.len(),
                g1.enabled(h),
                i <= all@.len(),
                all@.no_duplicates(),
                forall|x: CellHandle| all@.contains(x) <==> g1.enabled(x),
                forall|x: CellHandle| #[trigger] self.enabled(x) == g1.enabled(x),
                forall|x: CellHandle| #[trigger] self.enabled(x) && all@.subrange(0, i as int).contains(x)
                    ==> forgets(g1.at(x), self.at(x), if x == h { None } else { Some(h) }),
                forall|x: CellHandle| #[trigger] self.enabled(x) && !all@.subrange(0, i as int).contains(x)
                    ==> self.at(x) == g1.at(x),
            decreases all@.len() - i,
        {
            let x = all[i];
            proof {
                assert(all@.contains(x));
                assert(g1.enabled(x));
                assert(self.enabled(x));
                assert(all@.subrange(0, i as int + 1) =~= all@.subrange(0, i as int).push(x));
                if all@.subrange(0, i as int).contains(x) {
                    let j = all@.subrange(0, i as int).index_of(x);
                    assert(all@[j] == x);
                    assert(all@[i as int] == x);
                }
            }
            let ghost before = *self;
            if x == h {
                self.forget_all(x);
            } else {
                self.forget(x, h);
            }
            i += 1;
            proof {
                assert(before.enabled(x) && before.at(x) == g1.at(x));
                assert forall|y: CellHandle| #[trigger] self.enabled(y) == g1.enabled(y) by {
                    assert(before.enabled(y) == g1.enabled(y));
                    if self.in_bounds(y) && y != x {
                        assert(self.slot(y) == before.slot(y));
                    }
                }
                assert forall|y: CellHandle| #[trigger] self.enabled(y) && all@.subrange(0, i as int).contains(y)
                    implies forgets(g1.at(y), self.at(y), if y == h { None } else { Some(h) }) by {
                    crate::grid::lemma_push_contains(all@.subrange(0, i as int - 1), x, y);
                    assert(before.enabled(y) == g1.enabled(y));
                    if y != x {
                        assert(self.slot(y) == before.slot(y));
                        assert(before.enabled(y));
                    }
                }
                assert forall|y: CellHandle| #[trigger] self.enabled(y) && !all@.subrange(0, i as int).contains(y)
                    implies self.at(y) == g1.at(y) by {
                    crate::grid::lemma_push_contains(all@.subrange(0, i as int - 1), x, y);
                    assert(before.enabled(y) == g1.enabled(y));
                    assert(self.slot(y) == before.slot(y));
                    assert(before.enabled(y));
                }
            }
        }
        proof {
            assert(all@.subrange(0, all@.len() as int) =~= all@);
            lemma_orphaned_wf(g1, *self, h);
            assert forall|x: CellHandle, y: CellHandle| #[trigger] self.adjacent(x, y) <==> old(self).adjacent(x, y)
                && x != h && y != h by {
                if self.enabled(x) {
                    assert(g1.at(x).same_place(old(self).at(x)));
                    assert(old(self).cell_ok(x));
                }
            }
        }
    }

    /// Clears all four sides of the cell at `h`.
    fn forget_all(&mut self, h: CellHandle)
        requires
            old(self).shape_ok(),
            old(self).enabled(h),
        ensures
            final(self).slot(h) is Some,
            forgets(old(self).at(h), final(self).at(h), None),
            final(self).rows == old(self).rows,
            final(self).cols == old(self).cols,
            final(self).mask == old(self).mask,
            final(self).grid@.len() == old(self).grid@.len(),
            forall|r: int| 0 <= r < final(self).rows ==> #[trigger] final(self).grid@[r]@.len() == old(self).grid@[r]@.len(),
            forall|y: CellHandle| final(self).in_bounds(y) && y != h ==> #[trigger] final(self).slot(y) == old(self).slot(y),
    {
        let line = &mut self.grid[h.row];
        match &mut line[h.col] {
            Some(cell) => cell.orphan(),
            None => {},
        }
    }

    /// Whether the grid holds at least one cell.
    pub open spec fn has_cells(&self) -> bool {
        exists|h: CellHandle| self.enabled(h)
    }

    /// The handle of an enabled cell drawn at random.
    pub fn get_random_handle(&self, rng: &mut rand::rngs::StdRng) -> (h: CellHandle)
        requires
            self.wf(),
            self.has_cells(),
        ensures
            self.enabled(h),
    {
        match &self.mask {
            Some(m) => {
                proof {
                    let w = choose|h: CellHandle| self.enabled(h);
                    crate::mask::lemma_count_positive(*m, w.row as int, w.col as int);
                }
                let (r, c) = m.get_random(rng);
                CellHandle::new(r, c)
            },
            None => {
                let r = below(rng, self.rows);
                let c = below(rng, self.cols);
                let h = CellHandle::new(r, c);
                assert(self.in_bounds(h) && mask_allows(self.mask, r as int, c as int));
                h
            },
        }
    }

    /// An enabled cell drawn at random.
    pub fn get_random(&self, rng: &mut rand::rngs::StdRng) -> (c: &Cell)
        requires
            self.wf(),
            self.has_cells(),
        ensures
            self.enabled(c.handle_spec()),
            *c == self.at(c.handle_spec()),
    {
        let h = self.get_random_handle(rng);
        let c = self.grid[h.row][h.col].as_ref().unwrap();
        c
    }
}

/// `b` is `a` with each side that named `h` cleared; `h` of `None` clears every side.
pub open spec fn forgets(a: Cell, b: Cell, h: Option<CellHandle>) -> bool {
    &&& b.row == a.row
    &&& b.col == a.col
    &&& b.links == a.links
    &&& b.north == if h is None || a.north == h { None } else { a.north }
    &&& b.south == if h is None || a.south == h { None } else { a.south }
    &&& b.east == if h is None || a.east == h { None } else { a.east }
    &&& b.west == if h is None || a.west == h { None } else { a.west }
}

/// A grid whose cells all forgot `h`, and `h` them, stays well formed once no passage
/// touches `h`.
proof fn lemma_orphaned_wf(g1: Grid, g: Grid, h: CellHandle)
    requires
        g1.wf(),
        g1.enabled(h),
        forall|y: CellHandle| !g1.linked(h, y) && !g1.linked(y, h),
        g.shape_ok(),
        g.rows == g1.rows,
        g.cols == g1.cols,
        g.mask == g1.mask,
        forall|x: CellHandle| #[trigger] g.enabled(x) == g1.enabled(x),
        forall|x: CellHandle| #[trigger] g.enabled(x)
            ==> forgets(g1.at(x), g.at(x), if x == h { None } else { Some(h) }),
    ensures
        g.wf(),
        !g.at(h).has_neighbors_spec(),
        forall|x: CellHandle, y: CellHandle| #[trigger] g.linked(x, y) <==> g1.linked(x, y),
        forall|x: CellHandle, y: CellHandle| #[trigger] g.adjacent(x, y) <==> g1.adjacent(x, y) && x != h && y != h,
{
    assert forall|x: CellHandle, y: CellHandle| #[trigger] g.linked(x, y) <==> g1.linked(x, y) by {
        if g.enabled(x) {
            assert(forgets(g1.at(x), g.at(x), if x == h { None } else { Some(h) }));
        }
    }
    assert forall|x: CellHandle, y: CellHandle| #[trigger] g.adjacent(x, y) <==> g1.adjacent(x, y) && x != h && y != h by {
        if g.enabled(x) {
            assert(forgets(g1.at(x), g.at(x), if x == h { None } else { Some(h) }));
        }
    }
    assert forall|x: CellHandle| #[trigger] g.enabled(x) implies g.cell_ok(x) && mask_allows(g.mask, x.row as int, x.col as int) by {
        assert(g1.enabled(x));
        assert(g1.cell_ok(x));
        let a = g1.at(x);
        let b = g.at(x);
        assert(forgets(a, b, if x == h { None } else { Some(h) }));
        if let Some(n) = b.north {
            assert(g1.enabled(n));
            assert(g.enabled(n));
            assert(forgets(g1.at(n), g.at(n), if n == h { None } else { Some(h) }));
        }
        if let Some(n) = b.south {
            assert(g1.enabled(n));
            assert(g.enabled(n));
            assert(forgets(g1.at(n), g.at(n), if n == h { None } else { Some(h) }));
        }
        if let Some(n) = b.east {
            assert(g1.enabled(n));
            assert(g.enabled(n));
            assert(forgets(g1.at(n), g.at(n), if n == h { None } else { Some(h) }));
        }
        if let Some(n) = b.west {
            assert(g1.enabled(n));
            assert(g.enabled(n));
            assert(forgets(g1.at(n), g.at(n), if n == h { None } else { Some(h) }));
        }
        assert forall|y: CellHandle| #[trigger] b.links@.contains(y) implies b.adjacent(y) && g.linked(y, x) by {
            assert(g1.linked(x, y));
            assert(g1.linked(y, x));
            assert(y != h);
            assert(g.linked(y, x));
        }
    }
    assert forall|x: CellHandle| g.in_bounds(x) && mask_allows(g.mask, x.row as int, x.col as int) implies #[trigger] g.enabled(x) by {
        assert(g1.enabled(x));
    }
    assert(g.enabled(h));
    assert(forgets(g1.at(h), g.at(h), None));
}

/// `a` comes before `b` row by row.
pub open spec fn row_major_before(a: CellHandle, b: CellHandle) -> bool {
    a.row < b.row || (a.row == b.row && a.col < b.col)
}

/// A pushed sequence holds what it held and the new element.
pub proof fn lemma_push_contains<A>(s: Seq<A>, v: A, y: A)
    ensures
        s.push(v).contains(y) <==> (s.contains(y) || y == v),
{
    if s.contains(y) {
        let k = s.index_of(y);
        assert(s.push(v)[k] == y);
    }
    if y == v {
        assert(s.push(v)[s.len() as int] == y);
    }
    if s.push(v).contains(y) && y != v {
        let k = s.push(v).index_of(y);
        assert(s[k] == y);
    }
}

/// Whether the slot at `row`, `col` may hold a cell.
fn allowed(mask: &Option<Mask>, row: usize, col: usize) -> (b: bool)
    requires
        *mask matches Some(m) ==> m.wf() && row < m.rows && col < m.cols,
    ensures
        b == mask_allows(*mask, row as int, col as int),
{
    match mask {
        Some(m) => m.get(row, col),
        None => true,
    }
}

} // verus!
