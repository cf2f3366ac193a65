use vstd::prelude::*;

use crate::cell::CellHandle;
use crate::distances::{bfs_distances, distances, Distances};
use crate::grid::Grid;
use crate::image::Color;
use crate::render::{
    ascii_text, base36_of, digit_count, digits_for, pad_left, pad_left_string, render_ascii_internal,
    spaces, to_base36,
};

verus! {

/// Shortest-path solver: distances by breadth-first search from a root, then the way back
/// from a goal.
#[derive(Debug)]
pub struct Djikstra {
    grid: Grid,
    root: CellHandle,
    path: Option<Distances>,
    // distances from the centre cell, for background shading
    distances_from_center: Option<Distances>,
    max_distance_from_center: usize,
}

/// The background of a cell `d` passages from the centre, where the farthest cell is `max`
/// away: green, darkest far from the centre; each channel rounded to the nearest integer.
pub open spec fn shade(d: int, max: int) -> Color {
    if max <= 0 || d > max {
        Color { r: 0, g: 128, b: 0, a: 255 }
    } else {
        let dark = ((510 * (max - d) + max) / (2 * max)) as u8;
        let bright = (128 + (254 * (max - d) + max) / (2 * max)) as u8;
        Color { r: dark, g: bright, b: dark, a: 255 }
    }
}

/// `path` is a way from `goal` back to `root` in `d`: it holds both ends with their
/// distances from `d`, and each of its cells but the root has a linked cell one closer.
pub open spec fn is_way_back(
    grid: Grid,
    root: CellHandle,
    goal: CellHandle,
    d: Map<CellHandle, usize>,
    path: Map<CellHandle, usize>,
) -> bool {
    &&& path.contains_key(goal)
    &&& path.contains_key(root)
    &&& path[root] == 0
    &&& forall|h: CellHandle| #[trigger] path.contains_key(h) ==> d.contains_key(h) && path[h] == d[h]
    &&& forall|h: CellHandle| #[trigger]
        path.contains_key(h) && h != root ==> exists|p: CellHandle|
            #[trigger] grid.linked(h, p) && path.contains_key(p) && path[p] + 1 == path[h]
    // one cell at each distance from the goal's down to the root's: no cell off the way
    &&& path.dom().finite()
    &&& path.dom().len() == d[goal] + 1
}

/// Any two breadth-first distance maps from one root hold the same cells.
pub proof fn lemma_bfs_same_cells(
    grid: Grid,
    root: CellHandle,
    d1: Map<CellHandle, usize>,
    d2: Map<CellHandle, usize>,
    h: CellHandle,
)
    requires
        grid.wf(),
        bfs_distances(grid, root, d1),
        bfs_distances(grid, root, d2),
        d1.contains_key(h),
    ensures
        d2.contains_key(h),
    decreases d1[h],
{
    if h != root {
        let p = choose|p: CellHandle| #[trigger] grid.linked(h, p) && d1.contains_key(p) && d1[p] + 1 == d1[h];
        lemma_bfs_same_cells(grid, root, d1, d2, p);
        assert(grid.cell_ok(h));
        assert(grid.linked(p, h));
    }
}

impl Djikstra {
    pub closed spec fn grid_spec(&self) -> Grid {
        self.grid
    }

    pub closed spec fn root_spec(&self) -> CellHandle {
        self.root
    }

    /// The way found by the last `solve`, if any.
    pub closed spec fn path_spec(&self) -> Option<Map<CellHandle, usize>> {
        match self.path {
            Some(p) => Some(p@),
            None => None,
        }
    }

    /// The label of the cell at `h`: its distance along the way found, in base 36 and
    /// right-aligned, or blanks off the way.
    pub open spec fn contents_spec(&self, h: CellHandle) -> Seq<char> {
        let width = digits_for((self.grid_spec().rows * self.grid_spec().cols) as nat);
        match self.path_spec() {
            Some(p) => if p.contains_key(h) {
                pad_left(base36_of(p[h] as nat), width)
            } else {
                Seq::new(width, |_i: int| ' ')
            },
            None => Seq::new(width, |_i: int| ' '),
        }
    }

    pub closed spec fn wf(&self) -> bool {
        &&& self.grid.wf()
        &&& self.grid.enabled(self.root)
        &&& (self.path matches Some(p) ==> p.wf())
        &&& (self.distances_from_center matches Some(d) ==> d.wf() && forall|h: CellHandle| #[trigger]
            d@.contains_key(h) ==> d@[h] <= self.max_distance_from_center)
    }

    /// The background of the cell at `h`: shaded by its distance from the centre cell once
    /// `solve` has run, white before.
    pub open spec fn background_spec(&self, h: CellHandle) -> Color {
        match self.center_spec() {
            Some((d, max)) => shade(if d.contains_key(h) { d[h] as int } else { 0 }, max as int),
            None => Color { r: 255, g: 255, b: 255, a: 255 },
        }
    }

    pub closed spec fn center_spec(&self) -> Option<(Map<CellHandle, usize>, usize)> {
        match self.distances_from_center {
            Some(d) => Some((d@, self.max_distance_from_center)),
            None => None,
        }
    }

    /// The background of the cell at `row`, `col`.
    pub fn cell_background(&self, row: usize, col: usize) -> (c: Color)
        requires
            self.wf(),
        ensures
            c == self.background_spec(CellHandle { row, col }),
    {
        match &self.distances_from_center {
            Some(d) => {
                let dist = match d.get_distance(&CellHandle::new(row, col)) {
                    Some(v) => v,
                    None => 0,
                };
                let max = self.max_distance_from_center;
                if max == 0 || dist > max {
                    Color::new(0, 128, 0, 255)
                } else {
                    let m = max as u128;
                    let rest = (max - dist) as u128;
                    let dark = (510 * rest + m) / (2 * m);
                    let bright = 128 + (254 * rest + m) / (2 * m);
                    proof {
                        assert(dark <= 255) by (nonlinear_arith)
                            requires
                                dark == (510 * rest + m) / (2 * m),
                                rest <= m,
                                m > 0,
                        ;
                        assert(bright <= 255) by (nonlinear_arith)
                            requires
                                bright == 128 + (254 * rest + m) / (2 * m),
                                rest <= m,
                                m > 0,
                        ;
                    }
                    Color::new(dark as u8, bright as u8, dark as u8, 255)
                }
            },
            None => Color::white(),
        }
    }

    /// A solver over `grid` from the cell at `root_row`, `root_column`.
    pub fn new(grid: Grid, root_row: usize, root_column: usize) -> (s: Djikstra)
        requires
            grid.wf(),
            grid.enabled(CellHandle { row: root_row, col: root_column }),
        ensures
            s.wf(),
            s.grid_spec() == grid,
            s.root_spec() == (CellHandle { row: root_row, col: root_column }),
            s.path_spec() is None,
    {
        Djikstra {
            grid,
            root: CellHandle::new(root_row, root_column),
            path: None,
            distances_from_center: None,
            max_distance_from_center: 0,
        }
    }

    pub fn name(&self) -> &'static str {
        "Djikstra"
    }

    pub fn grid(&self) -> (g: &Grid)
        ensures
            *g == self.grid_spec(),
    {
        &self.grid
    }

    /// The maze drawn in text, each cell on the way labelled with its distance.
    pub fn render_ascii(&self) -> (s: String)
        requires
            self.wf(),
        ensures
            s@ == ascii_text(self.grid_spec(), Some(*self)),
    {
        render_ascii_internal(&self.grid, Some(self))
    }

    /// A linked cell one closer to the root than `cur`.
    fn closer_neighbor(&self, d: &Distances, cur: CellHandle) -> (n: CellHandle)
        requires
            self.wf(),
            d.wf(),
            bfs_distances(self.grid, self.root, d@),
            d@.contains_key(cur),
            cur != self.root,
        ensures
            self.grid.linked(cur, n),
            d@.contains_key(n),
            d@[n] + 1 == d@[cur],
    {
        proof {
            assert(self.grid.enabled(cur));
        }
        let cell = self.grid.get(cur.row, cur.col).unwrap();
        let cur_d = d.get_distance(&cur).unwrap();
        let mut k: usize = 0;
        while k < cell.links.len()
            invariant
                self.wf(),
                d.wf(),
                bfs_distances(self.grid, self.root, d@),
                d@.contains_key(cur),
                cur_d == d@[cur],
                self.grid.enabled(cur),
                *cell == self.grid.at(cur),
                k <= cell.links@.len(),
                forall|j: int| 0 <= j < k ==> !(d@.contains_key(#[trigger] cell.links@[j]) && d@[cell.links@[j]] < cur_d),
            decreases cell.links@.len() - k,
        {
            let n = cell.links[k];
            if let Some(dn) = d.get_distance(&n) {
                if dn < cur_d {
                    proof {
                        assert(cell.links@.contains(n));
                        assert(self.grid.linked(cur, n));
                        assert(self.grid.cell_ok(cur));
                        assert(self.grid.linked(n, cur));
                    }
                    return n;
                }
            }
            k += 1;
        }
        proof {
            let p = choose|p: CellHandle| #[trigger] self.grid.linked(cur, p) && d@.contains_key(p) && d@[p] + 1 == d@[cur];
            let j = cell.links@.index_of(p);
            assert(cell.links@[j] == p);
            assert(false);
        }
        cur
    }

    /// The way from `goal` back to the root, each cell with its distance.
    pub fn path_to(&self, goal: CellHandle, d: &Distances) -> (path: Distances)
        requires
            self.wf(),
            d.wf(),
            bfs_distances(self.grid_spec(), self.root_spec(), d@),
            d@.contains_key(goal),
        ensures
            path.wf(),
            is_way_back(self.grid_spec(), self.root_spec(), goal, d@, path@),
    {
        let mut current = goal;
        let mut current_distance = d.get_distance(&current).unwrap();
        let mut breadcrumbs = Distances::new(self.root);
        breadcrumbs.set_distance(current, current_distance);
        proof {
            assert(d@.contains_key(self.root));
            if goal == self.root {
                assert(breadcrumbs@.dom() =~= set![self.root]);
            } else {
                assert(breadcrumbs@.dom() =~= set![self.root, goal]);
                assert(set![self.root].insert(goal).len() == 2);
            }
            crate::maze::lemma_in_box(self.grid, breadcrumbs@.dom());
        }
        while current != self.root
            invariant
                self.wf(),
                d.wf(),
                bfs_distances(self.grid, self.root, d@),
                breadcrumbs.wf(),
                d@.contains_key(current),
                current_distance == d@[current],
                breadcrumbs@.contains_key(goal),
                breadcrumbs@.contains_key(current),
                breadcrumbs@.contains_key(self.root),
                breadcrumbs@[self.root] == 0,
                forall|h: CellHandle| #[trigger] breadcrumbs@.contains_key(h) ==> d@.contains_key(h) && breadcrumbs@[h] == d@[h],
                forall|h: CellHandle| #[trigger]
                    breadcrumbs@.contains_key(h) && h != self.root && h != current ==> exists|p: CellHandle|
                        #[trigger] self.grid.linked(h, p) && breadcrumbs@.contains_key(p) && breadcrumbs@[p] + 1 == breadcrumbs@[h],
                forall|h: CellHandle| #[trigger] breadcrumbs@.contains_key(h) ==> h == self.root || d@[h] >= current_distance,
                breadcrumbs@.dom().finite(),
                breadcrumbs@.dom().len() == d@[goal] - current_distance + 1 + if current == self.root { 0int } else { 1int },
            decreases current_distance,
        {
            let next = self.closer_neighbor(d, current);
            let next_distance = d.get_distance(&next).unwrap();
            let ghost before = breadcrumbs@;
            breadcrumbs.set_distance(next, next_distance);
            proof {
                assert(breadcrumbs@.dom() =~= before.dom().insert(next));
                assert(d@[self.root] == 0);
                if before.contains_key(next) {
                    assert(next == self.root);
                }
                assert forall|h: CellHandle| #[trigger]
                    breadcrumbs@.contains_key(h) && h != self.root && h != next implies exists|p: CellHandle|
                        #[trigger] self.grid.linked(h, p) && breadcrumbs@.contains_key(p) && breadcrumbs@[p] + 1 == breadcrumbs@[h] by {
                    if h == current {
                        assert(self.grid.linked(current, next));
                    } else {
                        let p = choose|p: CellHandle| #[trigger] self.grid.linked(h, p) && before.contains_key(p) && before[p] + 1 == before[h];
                        assert(self.grid.linked(h, p) && breadcrumbs@.contains_key(p));
                    }
                }
            }
            current = next;
            current_distance = next_distance;
        }
        breadcrumbs
    }

    /// Finds the way from the root to the cell at `goal_row`, `goal_col`.
    pub fn solve(&mut self, goal_row: usize, goal_col: usize)
        requires
            old(self).wf(),
        ensures
            final(self).wf(),
            final(self).grid_spec() == old(self).grid_spec(),
            final(self).root_spec() == old(self).root_spec(),
            ({
                let goal = CellHandle { row: goal_row, col: goal_col };
                match final(self).path_spec() {
                    Some(p) => exists|d: Map<CellHandle, usize>|
                        bfs_distances(final(self).grid_spec(), final(self).root_spec(), d)
                            && is_way_back(final(self).grid_spec(), final(self).root_spec(), goal, d, p),
                    None => forall|d: Map<CellHandle, usize>|
                        bfs_distances(final(self).grid_spec(), final(self).root_spec(), d)
                            ==> !d.contains_key(goal),
                }
            }),
    {
        let goal = CellHandle::new(goal_row, goal_col);
        // distances from the centre, for the background
        let center = CellHandle::new(self.grid.rows / 2, self.grid.cols / 2);
        if self.grid.get(center.row, center.col).is_some() {
            let from_center = distances(&self.grid, center);
            let (_, max) = from_center.max_distance();
            self.distances_from_center = Some(from_center);
            self.max_distance_from_center = max;
        } else {
            self.distances_from_center = None;
            self.max_distance_from_center = 0;
        }
        let d = distances(&self.grid, self.root);
        if d.contains(&goal) {
            let p = self.path_to(goal, &d);
            self.path = Some(p);
            proof {
                assert(bfs_distances(self.grid, self.root, d@) && is_way_back(self.grid, self.root, goal, d@, self.path_spec().unwrap()));
            }
        } else {
            self.path = None;
            proof {
                assert forall|d2: Map<CellHandle, usize>| bfs_distances(self.grid, self.root, d2) implies !d2.contains_key(goal) by {
                    if d2.contains_key(goal) {
                        lemma_bfs_same_cells(self.grid, self.root, d2, d@, goal);
                    }
                }
            }
        }
    }

    /// The label of a cell: its distance along the way found, in base 36 and right-aligned,
    /// or blanks off the way.
    pub fn cell_contents(&self, row: usize, col: usize) -> (s: String)
        requires
            self.wf(),
        ensures
            s@ == self.contents_spec(CellHandle { row, col }),
    {
        proof {
            assert(self.grid.rows * self.grid.cols <= usize::MAX);
        }
        let width = digit_count(self.grid.rows * self.grid.cols);
        let h = CellHandle::new(row, col);
        match &self.path {
            Some(p) => match p.get_distance(&h) {
                Some(dist) => pad_left_string(to_base36(dist), width),
                None => spaces(width),
            },
            None => spaces(width),
        }
    }
}

} // verus!
