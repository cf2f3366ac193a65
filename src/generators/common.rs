use vstd::prelude::*;

use crate::cell::CellHandle;
use crate::grid::Grid;
use crate::maze::{carved, closed, is_tree, lemma_in_box, lemma_tree_extend};
use crate::random::below;

verus! {

/// The most steps a random walk takes. Walks end long before it in practice; past it,
/// the hunt joins whatever the walk left over.
pub const WALK_LIMIT: u64 = 0xffff_ffff_ffff_ffff;

/// What a tree of passages says of the cells it has carved.
pub proof fn lemma_tree_carved(
    g: Grid,
    cells: Set<CellHandle>,
    parent: Map<CellHandle, CellHandle>,
    rank: Map<CellHandle, nat>,
    root: CellHandle,
)
    requires
        g.wf(),
        is_tree(g, cells, parent, rank, root),
    ensures
        forall|h: CellHandle| #[trigger] carved(g, h) ==> cells.contains(h) && cells.len() >= 2,
        cells.len() >= 2 ==> forall|h: CellHandle| #[trigger] cells.contains(h) ==> carved(g, h),
        cells.len() <= g.rows * g.cols,
{
    lemma_in_box(g, cells);
    assert forall|h: CellHandle| #[trigger] carved(g, h) implies cells.contains(h) && cells.len() >= 2 by {
        let y = g.at(h).links@[0];
        assert(g.linked(h, y));
        let other = if h != root { h } else { y };
        assert(cells.contains(other) && other != root);
        assert(cells.contains(h));
        vstd::set_lib::lemma_len_subset(set![root, other], cells);
    }
    if cells.len() >= 2 {
        assert forall|h: CellHandle| #[trigger] cells.contains(h) implies carved(g, h) by {
            if h != root {
                assert(g.linked(h, parent[h]));
            }
        }
    }
}

/// The neighbours of the cell at `h` that are carved (`want`) or not yet carved.
pub(crate) fn neighbors_by(grid: &Grid, h: CellHandle, want: bool) -> (v: Vec<CellHandle>)
    requires
        grid.wf(),
        grid.enabled(h),
    ensures
        forall|n: CellHandle| #[trigger]
            v@.contains(n) <==> grid.adjacent(h, n) && carved(*grid, n) == want,
{
    proof {
        assert(grid.cell_ok(h));
    }
    let all = grid.grid[h.row][h.col].as_ref().unwrap().adjacent_cells();
    let mut v: Vec<CellHandle> = Vec::new();
    let mut i: usize = 0;
    while i < all.len()
        invariant
            grid.wf(),
            grid.enabled(h),
            grid.cell_ok(h),
            i <= all@.len(),
            forall|n: CellHandle| all@.contains(n) <==> grid.at(h).adjacent(n),
            forall|n: CellHandle| #[trigger]
                v@.contains(n) <==> (exists|j: int| 0 <= j < i && all@[j] == n) && grid.adjacent(h, n)
                    && carved(*grid, n) == want,
        decreases all@.len() - i,
    {
        let n = all[i];
        proof {
            assert(all@.contains(n));
            assert(grid.enabled(n));
        }
        let c = grid.grid[n.row][n.col].as_ref().unwrap();
        let ghost before = v@;
        if (c.links.len() > 0) == want {
            v.push(n);
        }
        proof {
            assert forall|x: CellHandle| #[trigger]
                v@.contains(x) <==> (exists|j: int| 0 <= j < i + 1 && all@[j] == x) && grid.adjacent(h, x)
                    && carved(*grid, x) == want by {
                crate::grid::lemma_push_contains(before, n, x);
                if exists|j: int| 0 <= j < i + 1 && all@[j] == x {
                    let j = choose|j: int| 0 <= j < i + 1 && all@[j] == x;
                    if j < i {
                        assert(exists|j: int| 0 <= j < i && all@[j] == x);
                    }
                }
                if x != n && (exists|j: int| 0 <= j < i && all@[j] == x) {
                    let j = choose|j: int| 0 <= j < i && all@[j] == x;
                    assert(0 <= j < i + 1 && all@[j] == x);
                }
                if x == n {
                    assert(all@[i as int] == x);
                }
            }
        }
        i += 1;
    }
    proof {
        assert forall|n: CellHandle| #[trigger]
            v@.contains(n) <==> grid.adjacent(h, n) && carved(*grid, n) == want by {
            if grid.adjacent(h, n) {
                assert(all@.contains(n));
                let j = choose|j: int| 0 <= j < all@.len() && all@[j] == n;
                assert(exists|j: int| 0 <= j < i && all@[j] == n);
            }
        }
    }
    v
}

/// The first uncarved cell, in row-major order, that has a carved neighbour, with one of
/// those neighbours drawn at random.
pub(crate) fn hunt(grid: &Grid, rng: &mut rand::rngs::StdRng) -> (r: Option<(CellHandle, CellHandle)>)
    requires
        grid.wf(),
    ensures
        r matches Some(p) ==> grid.enabled(p.0) && !carved(*grid, p.0) && grid.adjacent(p.0, p.1)
            && carved(*grid, p.1),
        r is None ==> forall|h: CellHandle, n: CellHandle|
            grid.enabled(h) && !carved(*grid, h) && #[trigger] grid.adjacent(h, n) ==> !carved(*grid, n),
{
    let mut r: usize = 0;
    while r < grid.rows
        invariant
            grid.wf(),
            r <= grid.rows,
            forall|h: CellHandle, n: CellHandle|
                h.row < r && grid.enabled(h) && !carved(*grid, h) && #[trigger] grid.adjacent(h, n)
                    ==> !carved(*grid, n),
        decreases grid.rows - r,
    {
        let mut c: usize = 0;
        while c < grid.cols
            invariant
                grid.wf(),
                r < grid.rows,
                c <= grid.cols,
                forall|h: CellHandle, n: CellHandle|
                    (h.row < r || (h.row == r && h.col < c)) && grid.enabled(h) && !carved(*grid, h)
                        && #[trigger] grid.adjacent(h, n) ==> !carved(*grid, n),
            decreases grid.cols - c,
        {
            let h = CellHandle::new(r, c);
            if let Some(cell) = grid.grid[r][c].as_ref() {
                proof {
                    assert(grid.enabled(h));
                }
                if cell.links.len() == 0 {
                    let visited = neighbors_by(grid, h, true);
                    if visited.len() > 0 {
                        let k = below(rng, visited.len());
                        proof {
                            assert(visited@.contains(visited@[k as int]));
                        }
                        return Some((h, visited[k]));
                    }
                    proof {
                        assert forall|n: CellHandle| #[trigger] grid.adjacent(h, n) implies !carved(*grid, n) by {
                            if carved(*grid, n) {
                                assert(visited@.contains(n));
                            }
                        }
                    }
                }
            }
            c += 1;
        }
        r += 1;
    }
    None
}

/// Taking the element at `i` out of a sequence without duplicates, by moving the last one
/// into its place, leaves every other element.
pub proof fn lemma_swap_remove(s: Seq<CellHandle>, i: int)
    requires
        s.no_duplicates(),
        0 <= i < s.len(),
    ensures
        s.update(i, s.last()).drop_last().no_duplicates(),
        forall|h: CellHandle| #[trigger]
            s.update(i, s.last()).drop_last().contains(h) <==> s.contains(h) && h != s[i],
        s.update(i, s.last()).drop_last().len() == s.len() - 1,
{
    let t = s.update(i, s.last()).drop_last();
    let last = s.len() - 1;
    assert forall|h: CellHandle| #[trigger] t.contains(h) <==> s.contains(h) && h != s[i] by {
        if t.contains(h) {
            let k = t.index_of(h);
            if k == i {
                assert(s[last] == h);
            } else {
                assert(s[k] == h);
            }
        }
        if s.contains(h) && h != s[i] {
            let k = s.index_of(h);
            if k == last {
                assert(t[i] == h);
            } else {
                assert(t[k] == h);
            }
        }
    }
    assert forall|x: int, y: int| 0 <= x < t.len() && 0 <= y < t.len() && x != y implies t[x] != t[y] by {
        let xx = if x == i { last } else { x };
        let yy = if y == i { last } else { y };
        assert(t[x] == s[xx] && t[y] == s[yy]);
    }
}

/// Where `h` stands in `v`, if it does.
pub(crate) fn find(v: &Vec<CellHandle>, h: CellHandle) -> (r: Option<usize>)
    ensures
        r matches Some(i) ==> i < v@.len() && v@[i as int] == h,
        r is None ==> !v@.contains(h),
{
    let mut i: usize = 0;
    while i < v.len()
        invariant
            i <= v@.len(),
            forall|j: int| 0 <= j < i ==> v@[j] != h,
        decreases v@.len() - i,
    {
        if v[i] == h {
            return Some(i);
        }
        i += 1;
    }
    None
}

/// Joins every cell that can still be reached to the tree, by hunting: the tree then
/// spans a set that no neighbour leaves.
pub(crate) fn finish_by_hunting(
    grid: &mut Grid,
    rng: &mut rand::rngs::StdRng,
    root: CellHandle,
    Ghost(cells): Ghost<Set<CellHandle>>,
    Ghost(parent): Ghost<Map<CellHandle, CellHandle>>,
    Ghost(rank): Ghost<Map<CellHandle, nat>>,
) -> (r: Ghost<(Set<CellHandle>, Map<CellHandle, CellHandle>, Map<CellHandle, nat>)>)
    requires
        old(grid).wf(),
        is_tree(*old(grid), cells, parent, rank, root),
    ensures
        final(grid).wf(),
        final(grid).same_shape(*old(grid)),
        is_tree(*final(grid), r@.0, r@.1, r@.2, root),
        closed(*final(grid), r@.0),
{
    let ghost mut cells = cells;
    let ghost mut parent = parent;
    let ghost mut rank = rank;
    proof {
        lemma_tree_carved(*grid, cells, parent, rank, root);
        assert(grid.enabled(root));
    }
    // a lone root that was never carved starts the tree with its first neighbour
    let lone = grid.grid[root.row][root.col].as_ref().unwrap().links.len() == 0;
    if lone {
        let around = neighbors_by(grid, root, false);
        if around.len() > 0 {
            let n = around[0];
            proof {
                assert(around@.contains(n));
                grid.lemma_adjacent_symmetric(root, n);
                if cells.contains(n) {
                    assert(carved(*grid, n));
                }
            }
            let ghost g0 = *grid;
            grid.link_cells(root, n);
            proof {
                lemma_tree_extend(g0, *grid, cells, parent, rank, root, root, n);
                rank = rank.insert(n, cells.len());
                parent = parent.insert(n, root);
                cells = cells.insert(n);
                lemma_tree_carved(*grid, cells, parent, rank, root);
                assert(grid.linked(root, n));
            }
        } else {
            proof {
                let c = grid.at(root);
                assert forall|m: CellHandle| !c.adjacent(m) by {
                    if c.adjacent(m) {
                        assert(grid.adjacent(root, m));
                        if !carved(*grid, m) {
                            assert(around@.contains(m));
                        }
                    }
                }
                if c.has_neighbors_spec() {
                    if let Some(m) = c.north {
                        assert(c.adjacent(m));
                    } else if let Some(m) = c.south {
                        assert(c.adjacent(m));
                    } else if let Some(m) = c.east {
                        assert(c.adjacent(m));
                    } else if let Some(m) = c.west {
                        assert(c.adjacent(m));
                    }
                }
            }
        }
    }
    proof {
        assert(grid.enabled(root));
    }
    loop
        invariant
            old(grid).wf(),
            grid.wf(),
            grid.same_shape(*old(grid)),
            is_tree(*grid, cells, parent, rank, root),
            cells.len() <= grid.rows * grid.cols,
            grid.enabled(root),
            carved(*grid, root) || !grid.at(root).has_neighbors_spec(),
        ensures
            grid.wf(),
            grid.same_shape(*old(grid)),
            is_tree(*grid, cells, parent, rank, root),
            closed(*grid, cells),
        decreases grid.rows * grid.cols - cells.len(),
    {
        proof {
            lemma_tree_carved(*grid, cells, parent, rank, root);
        }
        match hunt(grid, rng) {
            Some((c, v)) => {
                proof {
                    grid.lemma_adjacent_symmetric(c, v);
                }
                let ghost g0 = *grid;
                grid.link_cells(c, v);
                proof {
                    lemma_tree_extend(g0, *grid, cells, parent, rank, root, v, c);
                    rank = rank.insert(c, cells.len());
                    parent = parent.insert(c, v);
                    cells = cells.insert(c);
                    lemma_tree_carved(*grid, cells, parent, rank, root);
                    assert(grid.at(root).same_place(g0.at(root)));
                }
            },
            None => {
                proof {
                    assert forall|h: CellHandle, n: CellHandle|
                        cells.contains(h) && #[trigger] grid.adjacent(h, n) implies cells.contains(n) by {
                        grid.lemma_adjacent_symmetric(h, n);
                        if !cells.contains(n) && !carved(*grid, h) {
                            if h != root {
                                vstd::set_lib::lemma_len_subset(set![h, root], cells);
                            }
                        }
                    }
                }
                break;
            },
        }
    }
    Ghost((cells, parent, rank))
}

} // verus!
