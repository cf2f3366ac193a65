use vstd::prelude::*;

use crate::cell::{Cell, CellHandle};
use crate::grid::{east_of, north_of, Grid};
use crate::maze::{carved, is_tree, lemma_in_box, perfect, spans};
use crate::random::below;

verus! {

/// Binary Tree: each cell carves towards its north or its east neighbour, picked at
/// random. The top row and the east column come out as unbroken corridors.
#[derive(Debug, Default)]
pub struct BinaryTree;

impl BinaryTree {
    pub fn name(&self) -> &'static str {
        "Binary Tree"
    }

    /// A random pick among the cell's north and east neighbours, `None` if it has neither.
    pub fn choose_neighbor(cell: &Cell, rng: &mut rand::rngs::StdRng) -> (r: Option<CellHandle>)
        ensures
            r is None <==> (cell.north is None && cell.east is None),
            r matches Some(n) ==> (cell.north == Some(n) || cell.east == Some(n)),
            cell.north is None ==> r == cell.east,
            cell.east is None ==> r == cell.north,
    {
        match (cell.north, cell.east) {
            (Some(n), Some(e)) => {
                if below(rng, 2) == 0 {
                    Some(n)
                } else {
                    Some(e)
                }
            },
            (Some(n), None) => Some(n),
            (None, Some(e)) => Some(e),
            (None, None) => None,
        }
    }

    /// Carves the maze: every cell links to its chosen north or east neighbour.
    pub fn run(&self, grid: &mut Grid, rng: &mut rand::rngs::StdRng)
        requires
            old(grid).wf(),
        ensures
            final(grid).wf(),
            final(grid).same_shape(*old(grid)),
            // each cell with a north or an east neighbour is linked to one of them
            forall|h: CellHandle| #[trigger]
                final(grid).enabled(h) && (final(grid).at(h).north is Some || final(grid).at(
                    h,
                ).east is Some) ==> final(grid).linked(h, north_of(h)) && final(grid).at(h).north
                    is Some || final(grid).linked(h, east_of(h)) && final(grid).at(h).east is Some,
            // the top row runs east as one corridor
            forall|h: CellHandle| #[trigger]
                final(grid).enabled(h) && h.row == 0 && final(grid).at(h).east is Some
                    ==> final(grid).linked(h, east_of(h)),
            // the east column runs north as one corridor
            forall|h: CellHandle| #[trigger]
                final(grid).enabled(h) && h.col + 1 == final(grid).cols && final(grid).at(h).north
                    is Some ==> final(grid).linked(h, north_of(h)),
            // every new passage joins a cell to its north or east neighbour
            forall|x: CellHandle, y: CellHandle| #[trigger]
                final(grid).linked(x, y) && !old(grid).linked(x, y) ==> (y == north_of(x) || y
                    == east_of(x) || x == north_of(y) || x == east_of(y)),
            // on a plain grid the passages form a perfect maze
            old(grid).uncarved() && old(grid).unmasked() && old(grid).unorphaned() ==> perfect(*final(grid)),
    {
        let mut links: Vec<(CellHandle, CellHandle)> = Vec::new();
        let mut r: usize = 0;
        while r < grid.rows
            invariant
                grid.wf(),
                r <= grid.rows,
                forall|i: int| 0 <= i < links@.len() ==> grid.adjacent(#[trigger] links@[i].0, links@[i].1),
                forall|i: int| 0 <= i < links@.len() ==> pair_ok(*grid, #[trigger] links@[i]),
                forall|h: CellHandle| #[trigger]
                    grid.enabled(h) && h.row < r && (grid.at(h).north is Some || grid.at(h).east is Some)
                        ==> chose(links@, h, grid.at(h)),
                forall|i: int| 0 <= i < links@.len() ==> (#[trigger] links@[i]).0.row < r,
                firsts_distinct(links@),
            decreases grid.rows - r,
        {
            let mut c: usize = 0;
            while c < grid.cols
                invariant
                    grid.wf(),
                    r < grid.rows,
                    c <= grid.cols,
                    forall|i: int| 0 <= i < links@.len() ==> grid.adjacent(#[trigger] links@[i].0, links@[i].1),
                    forall|i: int| 0 <= i < links@.len() ==> pair_ok(*grid, #[trigger] links@[i]),
                    forall|h: CellHandle| #[trigger]
                        grid.enabled(h) && (h.row < r || (h.row == r && h.col < c)) && (grid.at(h).north is Some
                            || grid.at(h).east is Some) ==> chose(links@, h, grid.at(h)),
                    forall|i: int| 0 <= i < links@.len() ==> (#[trigger] links@[i]).0.row < r
                        || (links@[i].0.row == r && links@[i].0.col < c),
                    firsts_distinct(links@),
                decreases grid.cols - c,
            {
                let h = CellHandle::new(r, c);
                if let Some(cell) = grid.grid[r][c].as_ref() {
                    proof {
                        assert(grid.enabled(h));
                        assert(grid.cell_ok(h));
                    }
                    if let Some(n) = BinaryTree::choose_neighbor(cell, rng) {
                        let ghost before = links@;
                        links.push((h, n));
                        proof {
                            assert(links@[links@.len() - 1] == (h, n));
                            assert forall|i: int| 0 <= i < links@.len() implies (#[trigger] links@[i]).0.row < r
                                || (links@[i].0.row == r && links@[i].0.col < c + 1) by {
                                if i < before.len() {
                                    assert(links@[i] == before[i]);
                                }
                            }
                            assert forall|i: int, j: int| 0 <= i < j < links@.len() implies (#[trigger] links@[i]).0
                                != (#[trigger] links@[j]).0 by {
                                assert(links@[i] == before[i]);
                                if j < before.len() {
                                    assert(links@[j] == before[j]);
                                }
                            }
                            assert forall|x: CellHandle| #[trigger]
                                grid.enabled(x) && (x.row < r || (x.row == r && x.col < c + 1))
                                    && (grid.at(x).north is Some || grid.at(x).east is Some)
                                    implies chose(links@, x, grid.at(x)) by {
                                if x != h {
                                    let i = choose|i: int| 0 <= i < before.len() && before[i].0 == x
                                        && (before[i].1 == grid.at(x).north.unwrap() && grid.at(x).north is Some
                                        || before[i].1 == grid.at(x).east.unwrap() && grid.at(x).east is Some);
                                    assert(links@[i] == before[i]);
                                }
                            }
                        }
                    }
                }
                c += 1;
            }
            r += 1;
        }
        let ghost g0 = *grid;
        grid.link_cells_multi(&links);
        proof {
            assert forall|h: CellHandle| #[trigger]
                grid.enabled(h) && (grid.at(h).north is Some || grid.at(h).east is Some)
                    implies grid.linked(h, north_of(h)) && grid.at(h).north is Some || grid.linked(h, east_of(h))
                    && grid.at(h).east is Some by {
                assert(g0.enabled(h));
                assert(g0.cell_ok(h));
                let i = choose|i: int| 0 <= i < links@.len() && links@[i].0 == h
                    && (links@[i].1 == g0.at(h).north.unwrap() && g0.at(h).north is Some
                    || links@[i].1 == g0.at(h).east.unwrap() && g0.at(h).east is Some);
                assert(grid.linked(h, links@[i].1));
            }
            assert forall|h: CellHandle| #[trigger]
                grid.enabled(h) && h.row == 0 && grid.at(h).east is Some implies grid.linked(h, east_of(h)) by {
                assert(g0.enabled(h));
                assert(g0.cell_ok(h));
                let i = choose|i: int| 0 <= i < links@.len() && links@[i].0 == h
                    && (links@[i].1 == g0.at(h).north.unwrap() && g0.at(h).north is Some
                    || links@[i].1 == g0.at(h).east.unwrap() && g0.at(h).east is Some);
                assert(grid.linked(h, links@[i].1));
            }
            assert forall|h: CellHandle| #[trigger]
                grid.enabled(h) && h.col + 1 == grid.cols && grid.at(h).north is Some implies grid.linked(
                h,
                north_of(h),
            ) by {
                assert(g0.enabled(h));
                assert(g0.cell_ok(h));
                let i = choose|i: int| 0 <= i < links@.len() && links@[i].0 == h
                    && (links@[i].1 == g0.at(h).north.unwrap() && g0.at(h).north is Some
                    || links@[i].1 == g0.at(h).east.unwrap() && g0.at(h).east is Some);
                assert(grid.linked(h, links@[i].1));
            }
            assert forall|x: CellHandle, y: CellHandle| #[trigger]
                grid.linked(x, y) && !g0.linked(x, y) implies (y == north_of(x) || y == east_of(x)
                    || x == north_of(y) || x == east_of(y)) by {
                let i = choose|i: int| 0 <= i < links@.len() && (links@[i] == (x, y) || links@[i] == (y, x));
                assert(pair_ok(g0, links@[i]));
                assert(g0.cell_ok(links@[i].0));
            }
            if g0.uncarved() && g0.unmasked() && g0.unorphaned() {
                lemma_binary_tree_perfect(g0, *grid, links@);
            }
        }
    }

    /// A fresh grid of the given size, carved by this generator.
    pub fn generate(&self, rows: usize, cols: usize, rng: &mut rand::rngs::StdRng) -> (g: Grid)
        requires
            rows > 0,
            cols > 0,
            rows * cols <= usize::MAX,
        ensures
            g.wf(),
            g.unmasked(),
            g.unorphaned(),
            g.rows == rows,
            g.cols == cols,
            // each cell with a north or an east neighbour is linked to one of them
            forall|h: CellHandle| #[trigger]
                g.enabled(h) && (g.at(h).north is Some || g.at(h).east is Some) ==> g.linked(h, north_of(h))
                    && g.at(h).north is Some || g.linked(h, east_of(h)) && g.at(h).east is Some,
            // the top row runs east as one corridor
            forall|h: CellHandle| #[trigger]
                g.enabled(h) && h.row == 0 && g.at(h).east is Some ==> g.linked(h, east_of(h)),
            // the east column runs north as one corridor
            forall|h: CellHandle| #[trigger]
                g.enabled(h) && h.col + 1 == g.cols && g.at(h).north is Some ==> g.linked(h, north_of(h)),
            // every passage joins a cell to its north or east neighbour
            forall|x: CellHandle, y: CellHandle| #[trigger]
                g.linked(x, y) ==> (y == north_of(x) || y == east_of(x) || x == north_of(y) || x == east_of(y)),
            perfect(g),
    {
        let mut g = Grid::new(rows, cols);
        let ghost g0 = g;
        self.run(&mut g, rng);
        proof {
            g.lemma_same_shape_keeps(g0);
            assert forall|x: CellHandle, y: CellHandle| #[trigger] g.linked(x, y) implies (y == north_of(x)
                || y == east_of(x) || x == north_of(y) || x == east_of(y)) by {
                if g0.linked(x, y) {
                    assert(g0.at(x).links@.len() == 0);
                }
            }
        }
        g
    }
}

/// A pair from an enabled cell to its north or its east neighbour.
pub open spec fn pair_ok(g: Grid, p: (CellHandle, CellHandle)) -> bool {
    g.enabled(p.0) && (g.at(p.0).north == Some(p.1) || g.at(p.0).east == Some(p.1))
}

/// No two pairs start at the same cell.
pub open spec fn firsts_distinct(links: Seq<(CellHandle, CellHandle)>) -> bool {
    forall|i: int, j: int| 0 <= i < j < links.len() ==> (#[trigger] links[i]).0 != (#[trigger] links[j]).0
}

/// The cells of an L along the top row and down the east column: `rows + cols - 1` of them.
proof fn lemma_corner_count(g: Grid)
    requires
        g.wf(),
        g.unmasked(),
    ensures
        Set::new(|h: CellHandle| g.enabled(h)).len() >= g.rows + g.cols - 1,
        Set::new(|h: CellHandle| g.enabled(h)).finite(),
{
    let cells = Set::new(|h: CellHandle| g.enabled(h));
    lemma_in_box(g, cells);
    let n = g.rows + g.cols - 1;
    let cols = g.cols as int;
    let f = |i: int| if i < cols {
        CellHandle { row: 0, col: i as usize }
    } else {
        CellHandle { row: (i - cols + 1) as usize, col: (cols - 1) as usize }
    };
    vstd::set_lib::lemma_int_range(0, n);
    let x = vstd::set_lib::set_int_range(0, n);
    let y = x.map(f);
    assert(vstd::relations::injective_on(f, x)) by {
        assert forall|a: int, b: int| x.contains(a) && x.contains(b) && #[trigger] f(a) == #[trigger] f(b) implies a == b by {
        }
    }
    vstd::set_lib::lemma_map_size(x, y, f);
    assert forall|h: CellHandle| y.contains(h) implies cells.contains(h) by {
        let i = choose|i: int| x.contains(i) && f(i) == h;
        assert(g.in_bounds(h));
    }
    vstd::set_lib::lemma_len_subset(y, cells);
}

/// The pairs a Binary Tree run carves on a plain grid make a perfect maze: each cell but the
/// north-east corner has its one pair, towards a neighbour nearer that corner.
#[verifier::rlimit(80)]
proof fn lemma_binary_tree_perfect(g0: Grid, g: Grid, links: Seq<(CellHandle, CellHandle)>)
    requires
        g0.wf(),
        g0.uncarved(),
        g0.unmasked(),
        g0.unorphaned(),
        g.wf(),
        g.same_shape(g0),
        forall|i: int| 0 <= i < links.len() ==> pair_ok(g0, #[trigger] links[i]),
        forall|h: CellHandle| #[trigger]
            g0.enabled(h) && (g0.at(h).north is Some || g0.at(h).east is Some) ==> chose(links, h, g0.at(h)),
        firsts_distinct(links),
        forall|x: CellHandle, y: CellHandle| #[trigger]
            g.linked(x, y) <==> (g0.linked(x, y) || exists|i: int|
                0 <= i < links.len() && (links[i] == (x, y) || links[i] == (y, x))),
    ensures
        perfect(g),
{
    let cols = g0.cols as int;
    let root = CellHandle { row: 0, col: (cols - 1) as usize };
    let cells = Set::new(|h: CellHandle| g.enabled(h));
    let parent = Map::new(
        |h: CellHandle| exists|i: int| 0 <= i < links.len() && links[i].0 == h,
        |h: CellHandle| links[choose|i: int| 0 <= i < links.len() && links[i].0 == h].1,
    );
    let rank = Map::new(|h: CellHandle| cells.contains(h), |h: CellHandle| (h.row + (cols - 1 - h.col)) as nat);
    lemma_corner_count(g0);
    assert(cells =~= Set::new(|h: CellHandle| g0.enabled(h)));
    // the pair of a cell is its parent
    assert forall|i: int| 0 <= i < links.len() implies parent.contains_key(#[trigger] links[i].0)
        && parent[links[i].0] == links[i].1 by {
        let j = choose|j: int| 0 <= j < links.len() && links[j].0 == links[i].0;
        if i < j {
            assert(links[i].0 != links[j].0);
        } else if j < i {
            assert(links[j].0 != links[i].0);
        }
    }
    // no pair starts at the corner
    assert forall|i: int| 0 <= i < links.len() implies (#[trigger] links[i]).0 != root by {
        assert(pair_ok(g0, links[i]));
        assert(g0.cell_ok(links[i].0));
        if links[i].0 == root && g0.at(root).east is Some {
            assert(g0.in_bounds(east_of(root)));
        }
    }
    assert(g0.in_bounds(root));
    assert(cells.contains(root));
    assert forall|h: CellHandle| #[trigger] cells.contains(h) implies g.enabled(h) && rank.contains_key(h)
        && rank[h] < cells.len() by {
    }
    assert forall|h: CellHandle| #[trigger] cells.contains(h) && h != root implies parent.contains_key(h)
        && cells.contains(parent[h]) && rank[parent[h]] < rank[h] && g.adjacent(h, parent[h]) by {
        assert(g0.enabled(h));
        if h.row > 0 {
            assert(g0.in_bounds(north_of(h)));
            assert(g0.enabled(north_of(h)));
        } else {
            assert(h.col + 1 < cols);
            assert(g0.in_bounds(east_of(h)));
            assert(g0.enabled(east_of(h)));
        }
        let i = choose|i: int| 0 <= i < links.len() && links[i].0 == h && (links[i].1 == g0.at(h).north.unwrap()
            && g0.at(h).north is Some || links[i].1 == g0.at(h).east.unwrap() && g0.at(h).east is Some);
        assert(parent[h] == links[i].1);
        assert(pair_ok(g0, links[i]));
        assert(g0.cell_ok(h));
        assert(g.at(h).same_place(g0.at(h)));
        assert(g0.enabled(links[i].1));
    }
    assert forall|x: CellHandle, y: CellHandle| #[trigger]
        g.linked(x, y) <==> (cells.contains(x) && x != root && parent[x] == y) || (cells.contains(y) && y
            != root && parent[y] == x) by {
        if g0.linked(x, y) {
            assert(g0.at(x).links@.len() == 0);
        }
        if g.linked(x, y) {
            let i = choose|i: int| 0 <= i < links.len() && (links[i] == (x, y) || links[i] == (y, x));
            assert(g0.enabled(links[i].0));
            assert(g0.cell_ok(links[i].0));
        }
        if cells.contains(x) && x != root && parent[x] == y {
            let i = choose|i: int| 0 <= i < links.len() && links[i].0 == x;
            assert(links[i] == (x, y));
        }
        if cells.contains(y) && y != root && parent[y] == x {
            let i = choose|i: int| 0 <= i < links.len() && links[i].0 == y;
            assert(links[i] == (y, x));
        }
    }
    if cells.len() >= 2 {
        // the corner's west or south neighbour carves towards it
        let w = if cols >= 2 {
            CellHandle { row: 0, col: (cols - 2) as usize }
        } else {
            CellHandle { row: 1, col: 0 }
        };
        if cols < 2 {
            if g0.rows < 2 {
                lemma_in_box(g, cells);
                assert(g.rows == 1 && g.cols == 1);
                assert(g.rows * g.cols == 1) by (nonlinear_arith)
                    requires
                        g.rows == 1,
                        g.cols == 1,
                ;
            }
        }
        assert(g0.in_bounds(w));
        assert(g0.enabled(w));
        assert(g0.cell_ok(w));
        let i = choose|i: int| 0 <= i < links.len() && links[i].0 == w && (links[i].1 == g0.at(w).north.unwrap()
            && g0.at(w).north is Some || links[i].1 == g0.at(w).east.unwrap() && g0.at(w).east is Some);
        assert(g.linked(root, w));
        assert(carved(g, root));
    }
    assert(is_tree(g, cells, parent, rank, root));
    assert(spans(g, cells));
}

/// `links` holds the choice of the cell at `h`: a pair from `h` to its north or east neighbour.
pub open spec fn chose(links: Seq<(CellHandle, CellHandle)>, h: CellHandle, c: Cell) -> bool {
    exists|i: int|
        0 <= i < links.len() && links[i].0 == h && (links[i].1 == c.north.unwrap() && c.north is Some
            || links[i].1 == c.east.unwrap() && c.east is Some)
}

} // verus!
