use vstd::prelude::*;

use crate::cell::CellHandle;
use crate::generators::{
    AldousBroder, BinaryTree, HuntAndKill, RecursiveBacktracker, Sidewinder, Wilsons,
};
use crate::grid::Grid;
use crate::maze::perfect;

verus! {

/// A generator that carves nothing.
#[derive(Debug, Default)]
pub struct NoneGenerator;

impl NoneGenerator {
    pub fn name(&self) -> &'static str {
        "None"
    }

    /// Leaves the grid as it is.
    pub fn run(&self, grid: &mut Grid, rng: &mut rand::rngs::StdRng)
        ensures
            *final(grid) == *old(grid),
    {
    }
}

/// The maze generators, to pick one at run time.
#[derive(Debug, Clone, Copy, PartialEq, Eq, Structural)]
pub enum GeneratorType {
    Blank,
    BinaryTree,
    Sidewinder,
    AldousBroder,
    Wilsons,
    HuntAndKill,
    RecursiveBacktracker,
}

impl GeneratorType {
    pub fn name(&self) -> &'static str {
        match self {
            GeneratorType::Blank => "None",
            GeneratorType::BinaryTree => "Binary Tree",
            GeneratorType::Sidewinder => "Sidewinder",
            GeneratorType::AldousBroder => "Aldous-Broder",
            GeneratorType::Wilsons => "Wilson's Algorithm",
            GeneratorType::HuntAndKill => "Hunt-and-Kill",
            GeneratorType::RecursiveBacktracker => "Recursive Backtracker",
        }
    }

    /// Runs the chosen generator on a fresh grid.
    pub fn run(&self, grid: &mut Grid, rng: &mut rand::rngs::StdRng)
        requires
            old(grid).wf(),
            old(grid).uncarved(),
            old(grid).has_cells(),
        ensures
            final(grid).wf(),
            final(grid).same_shape(*old(grid)),
            // no passage leads to or from a slot without a cell
            forall|x: CellHandle, y: CellHandle| #[trigger]
                final(grid).linked(x, y) ==> old(grid).enabled(x) && old(grid).enabled(y),
            // every generator carves a perfect maze on a plain grid
            *self != GeneratorType::Blank && old(grid).unmasked() && old(grid).unorphaned()
                ==> perfect(*final(grid)),
    {
        match self {
            GeneratorType::Blank => NoneGenerator.run(grid, rng),
            GeneratorType::BinaryTree => BinaryTree.run(grid, rng),
            GeneratorType::Sidewinder => Sidewinder.run(grid, rng),
            GeneratorType::AldousBroder => AldousBroder.run(grid, rng),
            GeneratorType::Wilsons => Wilsons.run(grid, rng),
            GeneratorType::HuntAndKill => HuntAndKill.run(grid, rng),
            GeneratorType::RecursiveBacktracker => RecursiveBacktracker.run(grid, rng),
        }
        proof {
            assert forall|x: CellHandle, y: CellHandle| #[trigger]
                grid.linked(x, y) implies old(grid).enabled(x) && old(grid).enabled(y) by {
                assert(grid.cell_ok(x));
                assert(grid.adjacent(x, y));
                grid.lemma_adjacent_symmetric(x, y);
            }
        }
    }
}

} // verus!
