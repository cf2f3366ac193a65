use vstd::prelude::*;

use crate::cell::CellHandle;
use crate::generators::common::{lemma_tree_carved, neighbors_by};
use crate::grid::Grid;
use crate::maze::{
    closed, is_tree, lemma_closed_tree_perfect, lemma_tree_extend, lemma_tree_start, perfect,
    spans,
};
use crate::random::below;

verus! {

/// Recursive Backtracker: a depth-first carve with an explicit stack. The top of the stack
/// carves into a random uncarved neighbour, which is pushed; a top with none is popped.
#[derive(Debug, Default)]
pub struct RecursiveBacktracker;

impl RecursiveBacktracker {
    pub fn name(&self) -> &'static str {
        "Recursive Backtracker"
    }

    /// Carves a tree over every cell that can be reached from a random start.
    pub fn run(&self, grid: &mut Grid, rng: &mut rand::rngs::StdRng)
        requires
            old(grid).wf(),
            old(grid).uncarved(),
            old(grid).has_cells(),
        ensures
            final(grid).wf(),
            final(grid).same_shape(*old(grid)),
            exists|cells: Set<CellHandle>| spans(*final(grid), cells) && closed(*final(grid), cells),
            old(grid).unmasked() && old(grid).unorphaned() ==> perfect(*final(grid)),
    {
        let start = grid.get_random_handle(rng);
        let ghost mut cells: Set<CellHandle> = set![start];
        let ghost mut parent: Map<CellHandle, CellHandle> = Map::empty();
        let ghost mut rank: Map<CellHandle, nat> = map![start => 0nat];
        proof {
            lemma_tree_start(*grid, start);
            lemma_tree_carved(*grid, cells, parent, rank, start);
        }
        let mut stack: Vec<CellHandle> = vec![start];
        while stack.len() > 0
            invariant
                grid.wf(),
                grid.same_shape(*old(grid)),
                is_tree(*grid, cells, parent, rank, start),
                cells.len() <= grid.rows * grid.cols,
                stack@.no_duplicates(),
                forall|i: int| 0 <= i < stack@.len() ==> cells.contains(#[trigger] stack@[i]),
                // a cell off the stack has no neighbour left to carve into
                forall|h: CellHandle, n: CellHandle|
                    cells.contains(h) && !stack@.contains(h) && #[trigger] grid.adjacent(h, n)
                        ==> cells.contains(n),
            decreases grid.rows * grid.cols - cells.len(), stack@.len(),
        {
            proof {
                lemma_tree_carved(*grid, cells, parent, rank, start);
            }
            let cur = stack[stack.len() - 1];
            proof {
                assert(cells.contains(stack@[stack@.len() - 1]));
            }
            let options = neighbors_by(grid, cur, false);
            if options.len() == 0 {
                let ghost before = stack@;
                stack.pop();
                proof {
                    assert(before == stack@.push(cur));
                    assert forall|i: int| 0 <= i < stack@.len() implies cells.contains(#[trigger] stack@[i]) by {
                        assert(stack@[i] == before[i]);
                    }
                    assert forall|h: CellHandle, n: CellHandle|
                        cells.contains(h) && !stack@.contains(h) && #[trigger] grid.adjacent(h, n)
                            implies cells.contains(n) by {
                        if before.contains(h) {
                            let k = before.index_of(h);
                            if k < stack@.len() {
                                assert(stack@[k] == h);
                            }
                            assert(h == cur);
                            grid.lemma_adjacent_symmetric(h, n);
                            if !cells.contains(n) {
                                assert(options@.contains(n));
                            }
                        }
                    }
                    assert(stack@.no_duplicates()) by {
                        assert forall|i: int, j: int| 0 <= i < stack@.len() && 0 <= j < stack@.len() && i != j
                            implies stack@[i] != stack@[j] by {
                            assert(stack@[i] == before[i] && stack@[j] == before[j]);
                        }
                    }
                }
            } else {
                let n = options[below(rng, options.len())];
                proof {
                    assert(options@.contains(n));
                    grid.lemma_adjacent_symmetric(cur, n);
                    if cells.contains(n) && cells.len() < 2 {
                        vstd::set_lib::lemma_len_subset(set![cur, n], cells);
                    }
                }
                let ghost g0 = *grid;
                grid.link_cells(cur, n);
                let ghost before = stack@;
                stack.push(n);
                proof {
                    lemma_tree_extend(g0, *grid, cells, parent, rank, start, cur, n);
                    rank = rank.insert(n, cells.len());
                    parent = parent.insert(n, cur);
                    cells = cells.insert(n);
                    lemma_tree_carved(*grid, cells, parent, rank, start);
                    assert(!before.contains(n));
                    assert forall|i: int| 0 <= i < stack@.len() implies cells.contains(#[trigger] stack@[i]) by {
                        if i < before.len() {
                            assert(stack@[i] == before[i]);
                        }
                    }
                    assert forall|h: CellHandle, m: CellHandle|
                        cells.contains(h) && !stack@.contains(h) && #[trigger] grid.adjacent(h, m)
                            implies cells.contains(m) by {
                        crate::grid::lemma_push_contains(before, n, h);
                        assert(g0.adjacent(h, m));
                    }
                    assert(stack@.no_duplicates()) by {
                        assert forall|i: int, j: int| 0 <= i < stack@.len() && 0 <= j < stack@.len() && i != j
                            implies stack@[i] != stack@[j] by {
                            if i < before.len() && j < before.len() {
                                assert(stack@[i] == before[i] && stack@[j] == before[j]);
                            } else if i < before.len() {
                                assert(before.contains(stack@[i]));
                            } else if j < before.len() {
                                assert(before.contains(stack@[j]));
                            }
                        }
                    }
                }
            }
        }
        proof {
            assert(spans(*grid, cells));
            assert(closed(*grid, cells));
            if old(grid).unmasked() && old(grid).unorphaned() {
                grid.lemma_same_shape_keeps(*old(grid));
                lemma_closed_tree_perfect(*grid, cells, parent, rank, start);
            }
        }
    }
}

} // verus!
