use vstd::prelude::*;

use crate::cell::CellHandle;
use crate::generators::common::{finish_by_hunting, lemma_tree_carved, WALK_LIMIT};
use crate::grid::Grid;
use crate::maze::{
    carved, closed, is_tree, lemma_closed_tree_perfect, lemma_tree_extend, lemma_tree_start,
    perfect, spans,
};

verus! {

/// Aldous-Broder: a random walk over all cells that carves into each cell the first time
/// it enters it. The mazes are uniform over all spanning trees.
#[derive(Debug, Default)]
pub struct AldousBroder;

impl AldousBroder {
    pub fn name(&self) -> &'static str {
        "Aldous-Broder"
    }

    /// Carves a tree over every cell that can be reached from a random start.
    pub fn run(&self, grid: &mut Grid, rng: &mut rand::rngs::StdRng)
        requires
            old(grid).wf(),
            old(grid).uncarved(),
            old(grid).has_cells(),
        ensures
            final(grid).wf(),
            final(grid).same_shape(*old(grid)),
            exists|cells: Set<CellHandle>| spans(*final(grid), cells) && closed(*final(grid), cells),
            old(grid).unmasked() && old(grid).unorphaned() ==> perfect(*final(grid)),
    {
        let start = grid.get_random_handle(rng);
        let ghost mut cells: Set<CellHandle> = set![start];
        let ghost mut parent: Map<CellHandle, CellHandle> = Map::empty();
        let ghost mut rank: Map<CellHandle, nat> = map![start => 0nat];
        proof {
            lemma_tree_start(*grid, start);
        }
        let total = grid.enabled_count();
        let mut unvisited: usize = if total > 0 {
            total - 1
        } else {
            0
        };
        let mut cur = start;
        let mut steps: u64 = 0;
        let mut stuck = false;
        while unvisited > 0 && !stuck && steps < WALK_LIMIT
            invariant
                grid.wf(),
                grid.same_shape(*old(grid)),
                is_tree(*grid, cells, parent, rank, start),
                cells.contains(cur),
            decreases WALK_LIMIT - steps, if stuck { 0int } else { 1int },
        {
            proof {
                lemma_tree_carved(*grid, cells, parent, rank, start);
                assert(grid.enabled(cur));
            }
            let cell = grid.get(cur.row, cur.col).unwrap();
            if !cell.has_neighbors() {
                stuck = true;
            } else {
                let n = cell.get_random_neighbor(rng);
                proof {
                    assert(grid.adjacent(cur, n));
                    grid.lemma_adjacent_symmetric(cur, n);
                }
                let fresh = grid.get(n.row, n.col).unwrap().links.len() == 0;
                if fresh {
                    proof {
                        if cells.contains(n) && cells.len() < 2 {
                            vstd::set_lib::lemma_len_subset(set![cur, n], cells);
                        }
                    }
                    let ghost g0 = *grid;
                    grid.link_cells(cur, n);
                    proof {
                        lemma_tree_extend(g0, *grid, cells, parent, rank, start, cur, n);
                        rank = rank.insert(n, cells.len());
                        parent = parent.insert(n, cur);
                        cells = cells.insert(n);
                    }
                    unvisited -= 1;
                } else {
                    proof {
                        assert(carved(*grid, n));
                    }
                }
                cur = n;
                steps += 1;
            }
        }
        let ghost g1 = *grid;
        let tree = finish_by_hunting(grid, rng, start, Ghost(cells), Ghost(parent), Ghost(rank));
        proof {
            let (c, p, r) = tree@;
            assert(spans(*grid, c));
            if old(grid).unmasked() && old(grid).unorphaned() {
                grid.lemma_same_shape_keeps(*old(grid));
                lemma_closed_tree_perfect(*grid, c, p, r, start);
            }
        }
    }
}

} // verus!
