use vstd::prelude::*;

use crate::cell::CellHandle;
use crate::generators::common::{hunt, lemma_tree_carved, neighbors_by};
use crate::grid::Grid;
use crate::maze::{
    carved, closed, is_tree, lemma_closed_tree_perfect, lemma_tree_extend, lemma_tree_start,
    perfect, spans,
};
use crate::random::below;

verus! {

/// Hunt-and-Kill: a random walk into uncarved cells; when stuck, hunt row by row for the
/// first uncarved cell next to a carved one, join the two, and walk on from there.
#[derive(Debug, Default)]
pub struct HuntAndKill;

impl HuntAndKill {
    pub fn name(&self) -> &'static str {
        "Hunt-and-Kill"
    }

    /// Carves a tree over every cell that can be reached from a random start.
    pub fn run(&self, grid: &mut Grid, rng: &mut rand::rngs::StdRng)
        requires
            old(grid).wf(),
            old(grid).uncarved(),
            old(grid).has_cells(),
        ensures
            final(grid).wf(),
            final(grid).same_shape(*old(grid)),
            exists|cells: Set<CellHandle>| spans(*final(grid), cells) && closed(*final(grid), cells),
            old(grid).unmasked() && old(grid).unorphaned() ==> perfect(*final(grid)),
    {
        let start = grid.get_random_handle(rng);
        let ghost mut cells: Set<CellHandle> = set![start];
        let ghost mut parent: Map<CellHandle, CellHandle> = Map::empty();
        let ghost mut rank: Map<CellHandle, nat> = map![start => 0nat];
        proof {
            lemma_tree_start(*grid, start);
            lemma_tree_carved(*grid, cells, parent, rank, start);
        }
        let mut cur = start;
        loop
            invariant
                grid.wf(),
                grid.same_shape(*old(grid)),
                is_tree(*grid, cells, parent, rank, start),
                cells.contains(cur),
                cells.len() <= grid.rows * grid.cols,
            ensures
                grid.wf(),
                grid.same_shape(*old(grid)),
                is_tree(*grid, cells, parent, rank, start),
                closed(*grid, cells),
            decreases grid.rows * grid.cols - cells.len(),
        {
            proof {
                lemma_tree_carved(*grid, cells, parent, rank, start);
            }
            let options = neighbors_by(grid, cur, false);
            if options.len() > 0 {
                let n = options[below(rng, options.len())];
                proof {
                    assert(options@.contains(n));
                    grid.lemma_adjacent_symmetric(cur, n);
                    if cells.contains(n) && cells.len() < 2 {
                        vstd::set_lib::lemma_len_subset(set![cur, n], cells);
                    }
                }
                let ghost g0 = *grid;
                grid.link_cells(cur, n);
                proof {
                    lemma_tree_extend(g0, *grid, cells, parent, rank, start, cur, n);
                    rank = rank.insert(n, cells.len());
                    parent = parent.insert(n, cur);
                    cells = cells.insert(n);
                    lemma_tree_carved(*grid, cells, parent, rank, start);
                }
                cur = n;
            } else {
                match hunt(grid, rng) {
                    Some((c, v)) => {
                        proof {
                            grid.lemma_adjacent_symmetric(c, v);
                        }
                        let ghost g0 = *grid;
                        grid.link_cells(c, v);
                        proof {
                            lemma_tree_extend(g0, *grid, cells, parent, rank, start, v, c);
                            rank = rank.insert(c, cells.len());
                            parent = parent.insert(c, v);
                            cells = cells.insert(c);
                            lemma_tree_carved(*grid, cells, parent, rank, start);
                        }
                        cur = c;
                    },
                    None => {
                        proof {
                            assert forall|h: CellHandle, n: CellHandle|
                                cells.contains(h) && #[trigger] grid.adjacent(h, n) implies cells.contains(n) by {
                                grid.lemma_adjacent_symmetric(h, n);
                                if !cells.contains(n) {
                                    if !carved(*grid, h) {
                                        if h != cur {
                                            vstd::set_lib::lemma_len_subset(set![h, cur], cells);
                                        }
                                        assert(options@.contains(n));
                                    }
                                }
                            }
                        }
                        break;
                    },
                }
            }
        }
        proof {
            assert(spans(*grid, cells));
            if old(grid).unmasked() && old(grid).unorphaned() {
                grid.lemma_same_shape_keeps(*old(grid));
                lemma_closed_tree_perfect(*grid, cells, parent, rank, start);
            }
        }
    }
}

} // verus!
