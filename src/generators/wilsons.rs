use vstd::prelude::*;

use crate::cell::CellHandle;
use crate::generators::common::{
    find, finish_by_hunting, lemma_swap_remove, lemma_tree_carved, WALK_LIMIT,
};
use crate::grid::Grid;
use crate::maze::{
    closed, is_tree, lemma_closed_tree_perfect, lemma_tree_extend, lemma_tree_start, perfect,
    spans,
};
use crate::random::below;

verus! {

/// Wilson's algorithm: from a random unvisited cell, a loop-erased random walk runs until it
/// meets the maze, and the walk's path is carved. The mazes are uniform over all spanning
/// trees.
#[derive(Debug, Default)]
pub struct Wilsons;

impl Wilsons {
    pub fn name(&self) -> &'static str {
        "Wilson's Algorithm"
    }

    /// Carves a tree over every cell that can be reached from a random start.
    pub fn run(&self, grid: &mut Grid, rng: &mut rand::rngs::StdRng)
        requires
            old(grid).wf(),
            old(grid).uncarved(),
            old(grid).has_cells(),
        ensures
            final(grid).wf(),
            final(grid).same_shape(*old(grid)),
            exists|cells: Set<CellHandle>| spans(*final(grid), cells) && closed(*final(grid), cells),
            old(grid).unmasked() && old(grid).unorphaned() ==> perfect(*final(grid)),
    {
        let mut unvisited = grid.handles();
        proof {
            let w = choose|h: CellHandle| grid.enabled(h);
            assert(unvisited@.contains(w));
        }
        let i0 = below(rng, unvisited.len());
        proof {
            lemma_swap_remove(unvisited@, i0 as int);
        }
        let first = unvisited.swap_remove(i0);
        let ghost mut cells: Set<CellHandle> = set![first];
        let ghost mut parent: Map<CellHandle, CellHandle> = Map::empty();
        let ghost mut rank: Map<CellHandle, nat> = map![first => 0nat];
        proof {
            lemma_tree_start(*grid, first);
        }
        let mut steps: u64 = 0;
        let mut stuck = false;
        while unvisited.len() > 0 && !stuck
            invariant
                grid.wf(),
                grid.same_shape(*old(grid)),
                is_tree(*grid, cells, parent, rank, first),
                unvisited@.no_duplicates(),
                forall|h: CellHandle| #[trigger]
                    unvisited@.contains(h) <==> grid.enabled(h) && !cells.contains(h),
            decreases unvisited@.len() + if stuck {
                0int
            } else {
                1int
            },
        {
            let walk_start = unvisited[below(rng, unvisited.len())];
            proof {
                assert(unvisited@.contains(walk_start));
            }
            let (path, met) = loop_erased_walk(grid, rng, &unvisited, walk_start, &mut steps, Ghost(cells));
            if met {
                let ghost g0 = *grid;
                let tree = carve_path(grid, &mut unvisited, &path, first, Ghost(cells), Ghost(parent), Ghost(rank));
                proof {
                    cells = tree@.0;
                    parent = tree@.1;
                    rank = tree@.2;
                    assert(grid.same_shape(*old(grid))) by {
                        assert forall|h: CellHandle| #[trigger] grid.enabled(h) implies grid.at(h).same_place(old(grid).at(h)) by {
                            assert(g0.enabled(h));
                        }
                    }
                }
            } else {
                stuck = true;
            }
        }
        let tree = finish_by_hunting(grid, rng, first, Ghost(cells), Ghost(parent), Ghost(rank));
        proof {
            let (c, p, r) = tree@;
            assert(spans(*grid, c));
            if old(grid).unmasked() && old(grid).unorphaned() {
                grid.lemma_same_shape_keeps(*old(grid));
                lemma_closed_tree_perfect(*grid, c, p, r, first);
            }
        }
    }
}

/// A path of cells, each a neighbour of the next, outside the maze but for its last cell,
/// which lies in it.
pub open spec fn path_to_maze(grid: Grid, path: Seq<CellHandle>, cells: Set<CellHandle>) -> bool {
    &&& path.len() >= 2
    &&& path.no_duplicates()
    &&& cells.contains(path.last())
    &&& forall|i: int| 0 <= i < path.len() - 1 ==> !cells.contains(#[trigger] path[i]) && grid.enabled(path[i])
    &&& forall|i: int| 0 <= i < path.len() - 1 ==> grid.adjacent(#[trigger] path[i], path[i + 1])
}

/// A walk so far: it starts at `s`, has no repeated cell, steps from neighbour to
/// neighbour, and stays outside the maze but perhaps for its last cell.
#[verifier::opaque]
pub open spec fn walk_ok(grid: Grid, p: Seq<CellHandle>, cells: Set<CellHandle>, s: CellHandle) -> bool {
    &&& p.len() >= 1
    &&& p[0] == s
    &&& p.no_duplicates()
    &&& grid.enabled(p.last())
    &&& forall|i: int| 0 <= i < p.len() - 1 ==> !cells.contains(#[trigger] p[i]) && grid.enabled(p[i])
    &&& forall|i: int| 0 <= i < p.len() - 1 ==> grid.adjacent(#[trigger] p[i], p[i + 1])
}

/// Cutting a walk back to one of its cells keeps it a walk.
proof fn lemma_walk_prefix(grid: Grid, p: Seq<CellHandle>, k: int, cells: Set<CellHandle>, s: CellHandle)
    requires
        walk_ok(grid, p, cells, s),
        !cells.contains(p.last()),
        0 <= k < p.len(),
    ensures
        walk_ok(grid, p.subrange(0, k + 1), cells, s),
        p.subrange(0, k + 1).last() == p[k],
{
    reveal(walk_ok);
    let q = p.subrange(0, k + 1);
    assert forall|i: int| 0 <= i < q.len() - 1 implies !cells.contains(#[trigger] q[i]) && grid.enabled(q[i]) by {
        assert(q[i] == p[i]);
    }
    assert forall|i: int| 0 <= i < q.len() - 1 implies grid.adjacent(#[trigger] q[i], q[i + 1]) by {
        assert(q[i] == p[i]);
        assert(q[i + 1] == p[i + 1]);
    }
    assert forall|x: int, y: int| 0 <= x < q.len() && 0 <= y < q.len() && x != y implies q[x] != q[y] by {
        assert(q[x] == p[x] && q[y] == p[y]);
    }
    if k == p.len() - 1 {
        assert(q.last() == p.last());
    } else {
        assert(grid.enabled(p[k]));
    }
}

/// Stepping from the end of a walk to a neighbour not on it keeps it a walk.
proof fn lemma_walk_push(grid: Grid, p: Seq<CellHandle>, next: CellHandle, cells: Set<CellHandle>, s: CellHandle)
    requires
        walk_ok(grid, p, cells, s),
        !cells.contains(p.last()),
        grid.adjacent(p.last(), next),
        grid.enabled(next),
        !p.contains(next),
    ensures
        walk_ok(grid, p.push(next), cells, s),
{
    reveal(walk_ok);
    let q = p.push(next);
    assert forall|i: int| 0 <= i < q.len() - 1 implies !cells.contains(#[trigger] q[i]) && grid.enabled(q[i]) by {
        assert(q[i] == p[i]);
    }
    assert forall|i: int| 0 <= i < q.len() - 1 implies grid.adjacent(#[trigger] q[i], q[i + 1]) by {
        assert(q[i] == p[i]);
    }
    assert forall|x: int, y: int| 0 <= x < q.len() && 0 <= y < q.len() && x != y implies q[x] != q[y] by {
        if x < p.len() && y < p.len() {
            assert(q[x] == p[x] && q[y] == p[y]);
        } else if x < p.len() {
            assert(p.contains(q[x]));
        } else if y < p.len() {
            assert(p.contains(q[y]));
        }
    }
}

/// Steps the walk to `next`: back to where it was, if it was there, else forward.
fn step_walk(grid: &Grid, path: &mut Vec<CellHandle>, next: CellHandle, Ghost(cells): Ghost<Set<CellHandle>>, Ghost(s): Ghost<CellHandle>)
    requires
        old(path)@.len() >= 1,
        walk_ok(*grid, old(path)@, cells, s),
        !cells.contains(old(path)@.last()),
        grid.adjacent(old(path)@.last(), next),
        grid.enabled(next),
    ensures
        walk_ok(*grid, final(path)@, cells, s),
        final(path)@.len() >= 1,
        final(path)@.last() == next,
{
    let ghost before = path@;
    match find(path, next) {
        Some(p) => {
            let len = path.len();
            assert(p < len);
            path.truncate(p + 1);
            assert(path@.len() == p + 1);
            proof {
                lemma_walk_prefix(*grid, before, p as int, cells, s);
                assert(path@ == before.subrange(0, p as int + 1));
            }
        },
        None => {
            path.push(next);
            proof {
                lemma_walk_push(*grid, before, next, cells, s);
            }
        },
    }
}

/// A random walk from `walk_start` that erases each loop as it closes, until it meets the
/// maze (`true`), a cell without neighbours or the step limit (`false`).
fn loop_erased_walk(
    grid: &Grid,
    rng: &mut rand::rngs::StdRng,
    unvisited: &Vec<CellHandle>,
    walk_start: CellHandle,
    steps: &mut u64,
    Ghost(cells): Ghost<Set<CellHandle>>,
) -> (r: (Vec<CellHandle>, bool))
    requires
        grid.wf(),
        forall|h: CellHandle| #[trigger] unvisited@.contains(h) <==> grid.enabled(h) && !cells.contains(h),
        unvisited@.contains(walk_start),
    ensures
        r.1 ==> path_to_maze(*grid, r.0@, cells) && r.0@[0] == walk_start,
{
    let mut path: Vec<CellHandle> = vec![walk_start];
    let mut cell_h = walk_start;
    let mut walking = true;
    let mut stuck = false;
    proof {
        reveal(walk_ok);
    }
    while walking && !stuck
        invariant
            grid.wf(),
            forall|h: CellHandle| #[trigger] unvisited@.contains(h) <==> grid.enabled(h) && !cells.contains(h),
            walk_ok(*grid, path@, cells, walk_start),
            path@.len() >= 1,
            path@.last() == cell_h,
            grid.enabled(cell_h),
            !cells.contains(walk_start),
            walking <==> !cells.contains(cell_h),
        decreases WALK_LIMIT - *steps, if stuck {
            0int
        } else {
            1int
        },
    {
        if *steps >= WALK_LIMIT {
            stuck = true;
        } else {
            let cell = grid.get(cell_h.row, cell_h.col).unwrap();
            if !cell.has_neighbors() {
                stuck = true;
            } else {
                let next = cell.get_random_neighbor(rng);
                proof {
                    assert(grid.adjacent(cell_h, next));
                    grid.lemma_adjacent_symmetric(cell_h, next);
                    reveal(walk_ok);
                }
                step_walk(grid, &mut path, next, Ghost(cells), Ghost(walk_start));
                cell_h = next;
                *steps = *steps + 1;
                let found = find(unvisited, cell_h);
                proof {
                    if let Some(i) = found {
                        assert(unvisited@[i as int] == cell_h);
                        assert(unvisited@.contains(cell_h));
                    }
                }
                walking = found.is_some();
            }
        }
    }
    proof {
        reveal(walk_ok);
        if !stuck && path@.len() == 1 {
            assert(cell_h == walk_start);
        }
    }
    (path, !stuck)
}

/// Carves a path that leads into the maze, from the end that meets it back to its start;
/// each cell of it joins the maze and leaves `unvisited`.
#[verifier::rlimit(40)]
fn carve_path(
    grid: &mut Grid,
    unvisited: &mut Vec<CellHandle>,
    path: &Vec<CellHandle>,
    root: CellHandle,
    Ghost(cells): Ghost<Set<CellHandle>>,
    Ghost(parent): Ghost<Map<CellHandle, CellHandle>>,
    Ghost(rank): Ghost<Map<CellHandle, nat>>,
) -> (r: Ghost<(Set<CellHandle>, Map<CellHandle, CellHandle>, Map<CellHandle, nat>)>)
    requires
        old(grid).wf(),
        is_tree(*old(grid), cells, parent, rank, root),
        old(unvisited)@.no_duplicates(),
        forall|h: CellHandle| #[trigger]
            old(unvisited)@.contains(h) <==> old(grid).enabled(h) && !cells.contains(h),
        path_to_maze(*old(grid), path@, cells),
    ensures
        final(grid).wf(),
        final(grid).same_shape(*old(grid)),
        is_tree(*final(grid), r@.0, r@.1, r@.2, root),
        final(unvisited)@.no_duplicates(),
        forall|h: CellHandle| #[trigger]
            final(unvisited)@.contains(h) <==> final(grid).enabled(h) && !r@.0.contains(h),
        final(unvisited)@.len() < old(unvisited)@.len(),
{
    let ghost mut cells = cells;
    let ghost mut parent = parent;
    let ghost mut rank = rank;
    let mut j: usize = path.len() - 1;
    while j > 0
        invariant
            old(grid).wf(),
            grid.wf(),
            grid.same_shape(*old(grid)),
            is_tree(*grid, cells, parent, rank, root),
            unvisited@.no_duplicates(),
            forall|h: CellHandle| #[trigger] unvisited@.contains(h) <==> grid.enabled(h) && !cells.contains(h),
            j < path@.len(),
            path@.no_duplicates(),
            path@.len() >= 2,
            cells.contains(path@[j as int]),
            forall|i: int| 0 <= i < j ==> !cells.contains(#[trigger] path@[i]) && old(grid).enabled(path@[i]),
            forall|i: int| 0 <= i < path@.len() - 1 ==> old(grid).adjacent(#[trigger] path@[i], path@[i + 1]),
            unvisited@.len() + (path@.len() - 1 - j) == old(unvisited)@.len(),
        decreases j,
    {
        let a = path[j - 1];
        let b = path[j];
        proof {
            assert(old(grid).adjacent(path@[j - 1], path@[(j - 1) + 1]));
            assert(grid.enabled(a));
            assert(grid.at(a).same_place(old(grid).at(a)));
            assert(grid.adjacent(a, b));
            grid.lemma_adjacent_symmetric(a, b);
        }
        let ghost g0 = *grid;
        grid.link_cells(a, b);
        proof {
            lemma_tree_extend(g0, *grid, cells, parent, rank, root, b, a);
            rank = rank.insert(a, cells.len());
            parent = parent.insert(a, b);
            assert(unvisited@.contains(a));
            cells = cells.insert(a);
        }
        let pos = find(unvisited, a).unwrap();
        proof {
            lemma_swap_remove(unvisited@, pos as int);
        }
        unvisited.swap_remove(pos);
        proof {
            assert forall|i: int| 0 <= i < j - 1 implies !cells.contains(#[trigger] path@[i])
                && old(grid).enabled(path@[i]) by {
                assert(path@[i] != a);
            }
        }
        j -= 1;
    }
    Ghost((cells, parent, rank))
}

} // verus!
