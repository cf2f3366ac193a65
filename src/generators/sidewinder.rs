use vstd::prelude::*;

use crate::cell::CellHandle;
use crate::grid::{east_of, north_of, Grid};
use crate::maze::{is_tree, lemma_tree_extend, lemma_tree_start, perfect, spans};
use crate::random::below;

verus! {

/// Sidewinder: row by row, cells gather into a run that carves east; a run closes at the
/// east edge or on a coin flip, and one random member of it carves north. The top row
/// comes out as one unbroken corridor.
#[derive(Debug, Default)]
pub struct Sidewinder;

/// A pair of neighbours, the second north or east of the first.
pub open spec fn north_or_east(g: Grid, p: (CellHandle, CellHandle)) -> bool {
    g.adjacent(p.0, p.1) && (p.1 == north_of(p.0) || p.1 == east_of(p.0))
}

/// `x` and `y` are neighbours, one north or east of the other.
pub open spec fn north_or_east_pair(x: CellHandle, y: CellHandle) -> bool {
    y == north_of(x) || y == east_of(x) || x == north_of(y) || x == east_of(y)
}

/// The cells before row `r`, column `c`, in row-major order.
pub open spec fn done(g: Grid, r: int, c: int) -> Set<CellHandle> {
    Set::new(|h: CellHandle| g.enabled(h) && (h.row < r || (h.row == r && h.col < c)))
}

/// Columns `lo` to `hi` of row `r`.
pub open spec fn span(r: usize, lo: int, hi: int) -> Set<CellHandle> {
    Set::new(|h: CellHandle| h.row == r && lo <= h.col <= hi)
}

/// Columns `lo` to `hi` of row `r` hold cells, each but the last with its east neighbour.
pub open spec fn run_ok_between(g: Grid, r: usize, lo: usize, hi: usize) -> bool {
    &&& forall|k: usize| lo <= k <= hi ==> #[trigger] g.enabled(CellHandle { row: r, col: k })
    &&& forall|k: usize| lo <= k < hi ==> (#[trigger] g.at(CellHandle { row: r, col: k })).east
        == Some(CellHandle { row: r, col: (k + 1) as usize })
}

/// A run stays a run when only passages change.
proof fn lemma_run_ok_same_shape(g: Grid, g0: Grid, r: usize, lo: usize, hi: usize, row: int, c: int)
    requires
        g.same_shape(g0),
        run_ok_between(g0, r, lo, hi),
    ensures
        run_ok_between(g, r, lo, hi),
        done(g, row, c) == done(g0, row, c),
{
    assert forall|k: usize| lo <= k < hi implies (#[trigger] g.at(CellHandle { row: r, col: k })).east
        == Some(CellHandle { row: r, col: (k + 1) as usize }) by {
        assert(g0.enabled(CellHandle { row: r, col: k }));
        assert(g.enabled(CellHandle { row: r, col: k }));
    }
    assert forall|k: usize| lo <= k <= hi implies #[trigger] g.enabled(CellHandle { row: r, col: k }) by {
        assert(g0.enabled(CellHandle { row: r, col: k }));
    }
    assert(done(g, row, c) =~= done(g0, row, c));
}

/// Carves the passage from `a` to its neighbour `b`; in a tree that holds `b` and not `a`,
/// `a` joins the tree.
fn carve_one(
    grid: &mut Grid,
    a: CellHandle,
    b: CellHandle,
    Ghost(tree): Ghost<bool>,
    Ghost(root): Ghost<CellHandle>,
    Ghost(cells): Ghost<Set<CellHandle>>,
    Ghost(parent): Ghost<Map<CellHandle, CellHandle>>,
    Ghost(rank): Ghost<Map<CellHandle, nat>>,
) -> (st: Ghost<(Set<CellHandle>, Map<CellHandle, CellHandle>, Map<CellHandle, nat>)>)
    requires
        old(grid).wf(),
        old(grid).adjacent(a, b),
        north_or_east_pair(a, b),
        tree ==> is_tree(*old(grid), cells, parent, rank, root) && cells.contains(b) && !cells.contains(a),
    ensures
        final(grid).wf(),
        final(grid).same_shape(*old(grid)),
        forall|x: CellHandle, y: CellHandle| #[trigger]
            final(grid).linked(x, y) <==> (old(grid).linked(x, y) || (x == a && y == b) || (x == b && y == a)),
        tree ==> is_tree(*final(grid), st@.0, st@.1, st@.2, root) && st@.0 == cells.insert(a),
{
    let ghost g0 = *grid;
    grid.link_cells(a, b);
    proof {
        if tree {
            lemma_tree_extend(g0, *grid, cells, parent, rank, root, b, a);
        }
    }
    Ghost((cells.insert(a), parent.insert(a, b), rank.insert(a, cells.len())))
}

/// Carves the passage from `a` to `b`, of which `a` is a neighbour; in a tree that holds `b`
/// and not `a`, `a` joins the tree.
fn carve_one_back(
    grid: &mut Grid,
    a: CellHandle,
    b: CellHandle,
    Ghost(tree): Ghost<bool>,
    Ghost(root): Ghost<CellHandle>,
    Ghost(cells): Ghost<Set<CellHandle>>,
    Ghost(parent): Ghost<Map<CellHandle, CellHandle>>,
    Ghost(rank): Ghost<Map<CellHandle, nat>>,
) -> (st: Ghost<(Set<CellHandle>, Map<CellHandle, CellHandle>, Map<CellHandle, nat>)>)
    requires
        old(grid).wf(),
        old(grid).adjacent(b, a),
        north_or_east_pair(a, b),
        tree ==> is_tree(*old(grid), cells, parent, rank, root) && cells.contains(b) && !cells.contains(a),
    ensures
        final(grid).wf(),
        final(grid).same_shape(*old(grid)),
        forall|x: CellHandle, y: CellHandle| #[trigger]
            final(grid).linked(x, y) <==> (old(grid).linked(x, y) || (x == a && y == b) || (x == b && y == a)),
        tree ==> is_tree(*final(grid), st@.0, st@.1, st@.2, root) && st@.0 == cells.insert(a),
{
    proof {
        grid.lemma_adjacent_symmetric(b, a);
    }
    carve_one(grid, a, b, Ghost(tree), Ghost(root), Ghost(cells), Ghost(parent), Ghost(rank))
}

/// Carves the run west of `center`, westwards, each cell from its east neighbour.
#[verifier::spinoff_prover]
fn carve_west(
    grid: &mut Grid,
    row: usize,
    start: usize,
    center: usize,
    end: usize,
    Ghost(tree): Ghost<bool>,
    Ghost(root): Ghost<CellHandle>,
    Ghost(base): Ghost<Set<CellHandle>>,
    Ghost(cells): Ghost<Set<CellHandle>>,
    Ghost(parent): Ghost<Map<CellHandle, CellHandle>>,
    Ghost(rank): Ghost<Map<CellHandle, nat>>,
) -> (st: Ghost<(Set<CellHandle>, Map<CellHandle, CellHandle>, Map<CellHandle, nat>)>)
    requires
        old(grid).wf(),
        row < old(grid).rows,
        start <= center <= end < old(grid).cols,
        run_ok_between(*old(grid), row, start, end),
        root == (CellHandle { row: 0, col: (old(grid).cols - 1) as usize }),
        tree ==> base == done(*old(grid), row as int, start as int).insert(root),
        tree ==> is_tree(*old(grid), cells, parent, rank, root) && cells == base.union(span(row, center as int, center as int)),
    ensures
        final(grid).wf(),
        final(grid).same_shape(*old(grid)),
        forall|x: CellHandle, y: CellHandle| #[trigger]
            final(grid).linked(x, y) ==> old(grid).linked(x, y) || north_or_east_pair(x, y),
        forall|x: CellHandle, y: CellHandle| #[trigger]
            old(grid).linked(x, y) ==> final(grid).linked(x, y),
        forall|k: usize| start <= k < center ==> #[trigger] final(grid).linked(
            CellHandle { row, col: k },
            CellHandle { row, col: (k + 1) as usize },
        ),
        tree ==> is_tree(*final(grid), st@.0, st@.1, st@.2, root) && st@.0 == base.union(span(row, start as int, center as int)),
{
    let ghost g0 = *grid;
    let ghost mut cells = cells;
    let ghost mut parent = parent;
    let ghost mut rank = rank;
    let mut k = center;
    while k > start
        invariant
            west_state(g0, *grid, row, start, center, end, k, tree, root, base, cells, parent, rank),
        decreases k,
    {
        let st = west_step(grid, row, start, center, end, k, Ghost(g0), Ghost(tree), Ghost(root), Ghost(base), Ghost(cells), Ghost(parent), Ghost(rank));
        proof {
            cells = st@.0;
            parent = st@.1;
            rank = st@.2;
        }
        k -= 1;
    }
    Ghost((cells, parent, rank))
}

/// Where carving west has got to: the run carved from `center` down to `k`.
pub open spec fn west_state(
    g0: Grid,
    g: Grid,
    row: usize,
    start: usize,
    center: usize,
    end: usize,
    k: usize,
    tree: bool,
    root: CellHandle,
    base: Set<CellHandle>,
    cells: Set<CellHandle>,
    parent: Map<CellHandle, CellHandle>,
    rank: Map<CellHandle, nat>,
) -> bool {
    &&& g0.wf()
    &&& g.wf()
    &&& g.same_shape(g0)
    &&& start <= k <= center <= end
    &&& row < g.rows
    &&& end < g.cols
    &&& run_ok_between(g0, row, start, end)
    &&& forall|x: CellHandle, y: CellHandle| #[trigger]
        g.linked(x, y) ==> g0.linked(x, y) || north_or_east_pair(x, y)
    &&& forall|x: CellHandle, y: CellHandle| #[trigger] g0.linked(x, y) ==> g.linked(x, y)
    &&& forall|j: usize| k <= j < center ==> #[trigger] g.linked(
        CellHandle { row, col: j },
        CellHandle { row, col: (j + 1) as usize },
    )
    &&& root == (CellHandle { row: 0, col: (g0.cols - 1) as usize })
    &&& (tree ==> base == done(g0, row as int, start as int).insert(root))
    &&& (tree ==> is_tree(g, cells, parent, rank, root) && cells == base.union(span(row, k as int, center as int)))
}

/// Carves the cell at column `k - 1` from its east neighbour.
fn west_step(
    grid: &mut Grid,
    row: usize,
    start: usize,
    center: usize,
    end: usize,
    k: usize,
    Ghost(g0): Ghost<Grid>,
    Ghost(tree): Ghost<bool>,
    Ghost(root): Ghost<CellHandle>,
    Ghost(base): Ghost<Set<CellHandle>>,
    Ghost(cells): Ghost<Set<CellHandle>>,
    Ghost(parent): Ghost<Map<CellHandle, CellHandle>>,
    Ghost(rank): Ghost<Map<CellHandle, nat>>,
) -> (st: Ghost<(Set<CellHandle>, Map<CellHandle, CellHandle>, Map<CellHandle, nat>)>)
    requires
        west_state(g0, *old(grid), row, start, center, end, k, tree, root, base, cells, parent, rank),
        k > start,
    ensures
        west_state(g0, *final(grid), row, start, center, end, (k - 1) as usize, tree, root, base, st@.0, st@.1, st@.2),
{
    let a = CellHandle::new(row, k - 1);
    let b = CellHandle::new(row, k);
    proof {
        lemma_west_before(g0, *grid, row, start, center, end, k, tree, root, base, cells, parent, rank);
    }
    let ghost mid = *grid;
    let st = carve_one(grid, a, b, Ghost(tree), Ghost(root), Ghost(cells), Ghost(parent), Ghost(rank));
    proof {
        lemma_west_after(g0, mid, *grid, row, start, center, end, k, tree, root, base, cells, parent, rank, st@);
    }
    st
}

/// Before carving column `k - 1`: its east neighbour is in the tree, and it is not.
proof fn lemma_west_before(
    g0: Grid,
    g: Grid,
    row: usize,
    start: usize,
    center: usize,
    end: usize,
    k: usize,
    tree: bool,
    root: CellHandle,
    base: Set<CellHandle>,
    cells: Set<CellHandle>,
    parent: Map<CellHandle, CellHandle>,
    rank: Map<CellHandle, nat>,
)
    requires
        west_state(g0, g, row, start, center, end, k, tree, root, base, cells, parent, rank),
        k > start,
    ensures
        g.adjacent(CellHandle { row, col: (k - 1) as usize }, CellHandle { row, col: k }),
        north_or_east_pair(CellHandle { row, col: (k - 1) as usize }, CellHandle { row, col: k }),
        tree ==> cells.contains(CellHandle { row, col: k }) && !cells.contains(CellHandle { row, col: (k - 1) as usize }),
{
    let a = CellHandle { row, col: (k - 1) as usize };
    let b = CellHandle { row, col: k };
    assert(g0.enabled(a));
    assert(g0.at(a).east == Some(b));
    assert(g.enabled(a));
    assert(g.at(a).same_place(g0.at(a)));
    assert(east_of(a) == b);
    if tree {
        assert(!base.contains(a));
    }
}

/// After carving column `k - 1`, the carving has got down to it.
proof fn lemma_west_after(
    g0: Grid,
    mid: Grid,
    g: Grid,
    row: usize,
    start: usize,
    center: usize,
    end: usize,
    k: usize,
    tree: bool,
    root: CellHandle,
    base: Set<CellHandle>,
    cells: Set<CellHandle>,
    parent: Map<CellHandle, CellHandle>,
    rank: Map<CellHandle, nat>,
    st: (Set<CellHandle>, Map<CellHandle, CellHandle>, Map<CellHandle, nat>),
)
    requires
        west_state(g0, mid, row, start, center, end, k, tree, root, base, cells, parent, rank),
        k > start,
        g.wf(),
        g.same_shape(mid),
        forall|x: CellHandle, y: CellHandle| #[trigger]
            g.linked(x, y) <==> (mid.linked(x, y) || (x == CellHandle { row, col: (k - 1) as usize } && y == CellHandle { row, col: k })
                || (x == CellHandle { row, col: k } && y == CellHandle { row, col: (k - 1) as usize })),
        tree ==> is_tree(g, st.0, st.1, st.2, root) && st.0 == cells.insert(CellHandle { row, col: (k - 1) as usize }),
    ensures
        west_state(g0, g, row, start, center, end, (k - 1) as usize, tree, root, base, st.0, st.1, st.2),
{
    let a = CellHandle { row, col: (k - 1) as usize };
    let b = CellHandle { row, col: k };
    assert(east_of(a) == b);
    if tree {
        assert(st.0 =~= base.union(span(row, k - 1, center as int)));
    }
    assert forall|j: usize| k - 1 <= j < center implies #[trigger] g.linked(
        CellHandle { row, col: j },
        CellHandle { row, col: (j + 1) as usize },
    ) by {
        if j >= k {
            assert(mid.linked(CellHandle { row, col: j }, CellHandle { row, col: (j + 1) as usize }));
        } else {
            assert(CellHandle { row, col: j } == a);
            assert(CellHandle { row, col: (j + 1) as usize } == b);
        }
    }
    assert forall|x: CellHandle, y: CellHandle| #[trigger] g0.linked(x, y) implies g.linked(x, y) by {
        assert(mid.linked(x, y));
    }
    assert forall|x: CellHandle, y: CellHandle| #[trigger] g.linked(x, y) implies g0.linked(x, y)
        || north_or_east_pair(x, y) by {
        if mid.linked(x, y) {
        }
    }
    assert(g.same_shape(g0)) by {
        assert forall|h: CellHandle| #[trigger] g.enabled(h) == g0.enabled(h) by {
            assert(mid.enabled(h) == g0.enabled(h));
        }
        assert forall|h: CellHandle| #[trigger] g.enabled(h) implies g.at(h).same_place(g0.at(h)) by {
            assert(mid.enabled(h));
        }
    }
}

/// Carves the run east of `center`, eastwards, each cell from its west neighbour.
#[verifier::spinoff_prover]
fn carve_east(
    grid: &mut Grid,
    row: usize,
    start: usize,
    center: usize,
    end: usize,
    Ghost(tree): Ghost<bool>,
    Ghost(root): Ghost<CellHandle>,
    Ghost(base): Ghost<Set<CellHandle>>,
    Ghost(cells): Ghost<Set<CellHandle>>,
    Ghost(parent): Ghost<Map<CellHandle, CellHandle>>,
    Ghost(rank): Ghost<Map<CellHandle, nat>>,
) -> (st: Ghost<(Set<CellHandle>, Map<CellHandle, CellHandle>, Map<CellHandle, nat>)>)
    requires
        old(grid).wf(),
        row < old(grid).rows,
        start <= center <= end < old(grid).cols,
        run_ok_between(*old(grid), row, start, end),
        root == (CellHandle { row: 0, col: (old(grid).cols - 1) as usize }),
        tree && row == 0 ==> center == end,
        tree ==> base == done(*old(grid), row as int, start as int).insert(root),
        tree ==> is_tree(*old(grid), cells, parent, rank, root) && cells == base.union(span(row, start as int, center as int)),
    ensures
        final(grid).wf(),
        final(grid).same_shape(*old(grid)),
        forall|x: CellHandle, y: CellHandle| #[trigger]
            final(grid).linked(x, y) ==> old(grid).linked(x, y) || north_or_east_pair(x, y),
        forall|x: CellHandle, y: CellHandle| #[trigger]
            old(grid).linked(x, y) ==> final(grid).linked(x, y),
        forall|k: usize| center <= k < end ==> #[trigger] final(grid).linked(
            CellHandle { row, col: k },
            CellHandle { row, col: (k + 1) as usize },
        ),
        tree ==> is_tree(*final(grid), st@.0, st@.1, st@.2, root) && st@.0 == base.union(span(row, start as int, end as int)),
{
    let ghost g0 = *grid;
    let ghost mut cells = cells;
    let ghost mut parent = parent;
    let ghost mut rank = rank;
    let mut k = center + 1;
    while k <= end
        invariant
            east_state(g0, *grid, row, start, center, end, k, tree, root, base, cells, parent, rank),
        decreases end + 1 - k,
    {
        let st = east_step(grid, row, start, center, end, k, Ghost(g0), Ghost(tree), Ghost(root), Ghost(base), Ghost(cells), Ghost(parent), Ghost(rank));
        proof {
            cells = st@.0;
            parent = st@.1;
            rank = st@.2;
        }
        k += 1;
    }
    Ghost((cells, parent, rank))
}

/// Where carving east has got to: the run carved from `center` up to `k - 1`.
pub open spec fn east_state(
    g0: Grid,
    g: Grid,
    row: usize,
    start: usize,
    center: usize,
    end: usize,
    k: usize,
    tree: bool,
    root: CellHandle,
    base: Set<CellHandle>,
    cells: Set<CellHandle>,
    parent: Map<CellHandle, CellHandle>,
    rank: Map<CellHandle, nat>,
) -> bool {
    &&& g0.wf()
    &&& g.wf()
    &&& g.same_shape(g0)
    &&& start <= center < k <= end + 1
    &&& row < g.rows
    &&& end < g.cols
    &&& run_ok_between(g0, row, start, end)
    &&& forall|x: CellHandle, y: CellHandle| #[trigger]
        g.linked(x, y) ==> g0.linked(x, y) || north_or_east_pair(x, y)
    &&& forall|x: CellHandle, y: CellHandle| #[trigger] g0.linked(x, y) ==> g.linked(x, y)
    &&& forall|j: usize| center <= j < k - 1 ==> #[trigger] g.linked(
        CellHandle { row, col: j },
        CellHandle { row, col: (j + 1) as usize },
    )
    &&& root == (CellHandle { row: 0, col: (g0.cols - 1) as usize })
    &&& (tree && row == 0 ==> center == end)
    &&& (tree ==> base == done(g0, row as int, start as int).insert(root))
    &&& (tree ==> is_tree(g, cells, parent, rank, root) && cells == base.union(span(row, start as int, k - 1)))
}

/// Carves the cell at column `k` from its west neighbour.
fn east_step(
    grid: &mut Grid,
    row: usize,
    start: usize,
    center: usize,
    end: usize,
    k: usize,
    Ghost(g0): Ghost<Grid>,
    Ghost(tree): Ghost<bool>,
    Ghost(root): Ghost<CellHandle>,
    Ghost(base): Ghost<Set<CellHandle>>,
    Ghost(cells): Ghost<Set<CellHandle>>,
    Ghost(parent): Ghost<Map<CellHandle, CellHandle>>,
    Ghost(rank): Ghost<Map<CellHandle, nat>>,
) -> (st: Ghost<(Set<CellHandle>, Map<CellHandle, CellHandle>, Map<CellHandle, nat>)>)
    requires
        east_state(g0, *old(grid), row, start, center, end, k, tree, root, base, cells, parent, rank),
        k <= end,
    ensures
        east_state(g0, *final(grid), row, start, center, end, (k + 1) as usize, tree, root, base, st@.0, st@.1, st@.2),
{
    let a = CellHandle::new(row, k);
    let b = CellHandle::new(row, k - 1);
    proof {
        lemma_east_before(g0, *grid, row, start, center, end, k, tree, root, base, cells, parent, rank);
    }
    let ghost mid = *grid;
    let st = carve_one_back(grid, a, b, Ghost(tree), Ghost(root), Ghost(cells), Ghost(parent), Ghost(rank));
    proof {
        lemma_east_after(g0, mid, *grid, row, start, center, end, k, tree, root, base, cells, parent, rank, st@);
    }
    st
}

/// Before carving column `k`: its west neighbour is in the tree, and it is not.
proof fn lemma_east_before(
    g0: Grid,
    g: Grid,
    row: usize,
    start: usize,
    center: usize,
    end: usize,
    k: usize,
    tree: bool,
    root: CellHandle,
    base: Set<CellHandle>,
    cells: Set<CellHandle>,
    parent: Map<CellHandle, CellHandle>,
    rank: Map<CellHandle, nat>,
)
    requires
        east_state(g0, g, row, start, center, end, k, tree, root, base, cells, parent, rank),
        k <= end,
    ensures
        g.adjacent(CellHandle { row, col: (k - 1) as usize }, CellHandle { row, col: k }),
        north_or_east_pair(CellHandle { row, col: k }, CellHandle { row, col: (k - 1) as usize }),
        tree ==> cells.contains(CellHandle { row, col: (k - 1) as usize }) && !cells.contains(CellHandle { row, col: k }),
{
    let a = CellHandle { row, col: k };
    let b = CellHandle { row, col: (k - 1) as usize };
    assert(g0.enabled(b));
    assert(g0.at(b).east == Some(a));
    assert(g.enabled(b));
    assert(g.at(b).same_place(g0.at(b)));
    assert(east_of(b) == a);
    if tree {
        assert(row > 0);
        assert(!base.contains(a));
    }
}

/// After carving column `k`, the carving has got to `k + 1`.
proof fn lemma_east_after(
    g0: Grid,
    mid: Grid,
    g: Grid,
    row: usize,
    start: usize,
    center: usize,
    end: usize,
    k: usize,
    tree: bool,
    root: CellHandle,
    base: Set<CellHandle>,
    cells: Set<CellHandle>,
    parent: Map<CellHandle, CellHandle>,
    rank: Map<CellHandle, nat>,
    st: (Set<CellHandle>, Map<CellHandle, CellHandle>, Map<CellHandle, nat>),
)
    requires
        east_state(g0, mid, row, start, center, end, k, tree, root, base, cells, parent, rank),
        k <= end,
        g.wf(),
        g.same_shape(mid),
        forall|x: CellHandle, y: CellHandle| #[trigger]
            g.linked(x, y) <==> (mid.linked(x, y) || (x == CellHandle { row, col: k } && y == CellHandle { row, col: (k - 1) as usize })
                || (x == CellHandle { row, col: (k - 1) as usize } && y == CellHandle { row, col: k })),
        tree ==> is_tree(g, st.0, st.1, st.2, root) && st.0 == cells.insert(CellHandle { row, col: k }),
    ensures
        east_state(g0, g, row, start, center, end, (k + 1) as usize, tree, root, base, st.0, st.1, st.2),
{
    let a = CellHandle { row, col: k };
    let b = CellHandle { row, col: (k - 1) as usize };
    assert(east_of(b) == a);
    if tree {
        assert(st.0 =~= base.union(span(row, start as int, k as int)));
    }
    lemma_east_links(g0, mid, g, row, center, k, a, b);
    assert(g.same_shape(g0)) by {
        assert forall|h: CellHandle| #[trigger] g.enabled(h) == g0.enabled(h) by {
            assert(mid.enabled(h) == g0.enabled(h));
        }
        assert forall|h: CellHandle| #[trigger] g.enabled(h) implies g.at(h).same_place(g0.at(h)) by {
            assert(mid.enabled(h));
        }
    }
}

/// The passages after carving `a` from its west neighbour `b`, at column `k`.
proof fn lemma_east_links(g0: Grid, mid: Grid, g: Grid, row: usize, center: usize, k: usize, a: CellHandle, b: CellHandle)
    requires
        center < k,
        a == (CellHandle { row, col: k }),
        b == (CellHandle { row, col: (k - 1) as usize }),
        east_of(b) == a,
        forall|x: CellHandle, y: CellHandle| #[trigger]
            mid.linked(x, y) ==> g0.linked(x, y) || north_or_east_pair(x, y),
        forall|x: CellHandle, y: CellHandle| #[trigger] g0.linked(x, y) ==> mid.linked(x, y),
        forall|j: usize| center <= j < k - 1 ==> #[trigger] mid.linked(
            CellHandle { row, col: j },
            CellHandle { row, col: (j + 1) as usize },
        ),
        forall|x: CellHandle, y: CellHandle| #[trigger]
            g.linked(x, y) <==> (mid.linked(x, y) || (x == a && y == b) || (x == b && y == a)),
    ensures
        forall|x: CellHandle, y: CellHandle| #[trigger]
            g.linked(x, y) ==> g0.linked(x, y) || north_or_east_pair(x, y),
        forall|x: CellHandle, y: CellHandle| #[trigger] g0.linked(x, y) ==> g.linked(x, y),
        forall|j: usize| center <= j < k ==> #[trigger] g.linked(
            CellHandle { row, col: j },
            CellHandle { row, col: (j + 1) as usize },
        ),
{
    assert forall|j: usize| center <= j < k implies #[trigger] g.linked(
        CellHandle { row, col: j },
        CellHandle { row, col: (j + 1) as usize },
    ) by {
        if j < k - 1 {
            assert(mid.linked(CellHandle { row, col: j }, CellHandle { row, col: (j + 1) as usize }));
        } else {
            assert(CellHandle { row, col: j } == b);
            assert(CellHandle { row, col: (j + 1) as usize } == a);
        }
    }
    assert forall|x: CellHandle, y: CellHandle| #[trigger] g0.linked(x, y) implies g.linked(x, y) by {
        assert(mid.linked(x, y));
    }
}

/// The run: cells of the current row, each with an east neighbour.
pub open spec fn run_ok(g: Grid, run: Seq<CellHandle>, row: int) -> bool {
    forall|i: int| 0 <= i < run.len() ==> g.enabled(#[trigger] run[i]) && run[i].row == row
}

impl Sidewinder {
    pub fn name(&self) -> &'static str {
        "Sidewinder"
    }

    /// Adds the cell at `row`, `col` to the run and returns the passage it calls for, if any:
    /// east while the run goes on, north from a random member when the run closes.
    pub fn link(
        grid: &Grid,
        row: usize,
        col: usize,
        run: &mut Vec<CellHandle>,
        rng: &mut rand::rngs::StdRng,
    ) -> (r: Option<(CellHandle, CellHandle)>)
        requires
            grid.wf(),
            row < grid.rows,
            col < grid.cols,
            run_ok(*grid, old(run)@, row as int),
        ensures
            run_ok(*grid, final(run)@, row as int),
            r matches Some(p) ==> north_or_east(*grid, p),
            ({
                let h = CellHandle { row, col };
                &&& grid.enabled(h) && grid.at(h).north is None && grid.at(h).east is Some ==> r == Some(
                    (h, east_of(h)),
                )
                // no cell: nothing changes
                &&& !grid.enabled(h) ==> r is None && final(run)@ == old(run)@
                // the run goes on east, or closes: cleared, after one member carved north if it could
                &&& grid.enabled(h) ==> (r == Some((h, east_of(h))) && grid.at(h).east is Some
                    && final(run)@ == old(run)@.push(h)) || (final(run)@.len() == 0 && exists|m: CellHandle|
                    old(run)@.push(h).contains(m) && r == match grid.at(m).north {
                        Some(n) => Some((m, n)),
                        None => None::<(CellHandle, CellHandle)>,
                    })
            }),
    {
        let h = CellHandle::new(row, col);
        match grid.get(row, col) {
            None => None,
            Some(cell) => {
                proof {
                    assert(grid.enabled(h));
                    assert(grid.cell_ok(h));
                }
                let ghost before = run@;
                run.push(h);
                proof {
                    assert forall|i: int| 0 <= i < run@.len() implies grid.enabled(#[trigger] run@[i])
                        && run@[i].row == row by {
                        if i < before.len() {
                            assert(run@[i] == before[i]);
                        }
                    }
                }
                let at_eastern_boundary = cell.east.is_none();
                let at_northern_boundary = cell.north.is_none();
                let close_out = at_eastern_boundary || (!at_northern_boundary && below(rng, 2) == 0);
                if close_out {
                    let k = below(rng, run.len());
                    let member = run[k];
                    proof {
                        assert(grid.enabled(run@[k as int]));
                        assert(grid.cell_ok(member));
                    }
                    let north = grid.get(member.row, member.col).unwrap().north;
                    proof {
                        assert(CellHandle { row: member.row, col: member.col } == member);
                        assert(north == grid.at(member).north);
                        assert(run@.contains(member));
                    }
                    run.clear();
                    match north {
                        Some(n) => Some((member, n)),
                        None => None,
                    }
                } else {
                    Some((h, cell.east.unwrap()))
                }
            },
        }
    }

    /// Carves the maze, row by row: each run carves east, and one random member of it
    /// carves north when it closes. Each run is carved outwards from that member.
    #[verifier::spinoff_prover]
    pub fn run(&self, grid: &mut Grid, rng: &mut rand::rngs::StdRng)
        requires
            old(grid).wf(),
        ensures
            final(grid).wf(),
            final(grid).same_shape(*old(grid)),
            // the top row runs east as one corridor
            forall|h: CellHandle| #[trigger]
                final(grid).enabled(h) && h.row == 0 && final(grid).at(h).east is Some
                    ==> final(grid).linked(h, east_of(h)),
            // every new passage joins a cell to its north or east neighbour
            forall|x: CellHandle, y: CellHandle| #[trigger]
                final(grid).linked(x, y) && !old(grid).linked(x, y) ==> north_or_east_pair(x, y),
            // on a plain grid the passages form a perfect maze
            old(grid).uncarved() && old(grid).unmasked() && old(grid).unorphaned() ==> perfect(*final(grid)),
    {
        let ghost tree = old(grid).uncarved() && old(grid).unmasked() && old(grid).unorphaned();
        let ghost root = CellHandle { row: 0, col: (grid.cols - 1) as usize };
        let ghost mut cells: Set<CellHandle> = set![root];
        let ghost mut parent: Map<CellHandle, CellHandle> = Map::empty();
        let ghost mut rank: Map<CellHandle, nat> = map![root => 0nat];
        proof {
            if tree {
                assert(grid.in_bounds(root));
                lemma_tree_start(*grid, root);
                assert(cells =~= done(*grid, 0, 0).insert(root));
            }
        }
        let mut r: usize = 0;
        while r < grid.rows
            invariant
                old(grid).wf(),
                grid.wf(),
                grid.same_shape(*old(grid)),
                r <= grid.rows,
                root == (CellHandle { row: 0, col: (grid.cols - 1) as usize }),
                tree ==> old(grid).unmasked() && old(grid).unorphaned(),
                forall|x: CellHandle, y: CellHandle| #[trigger]
                    grid.linked(x, y) && !old(grid).linked(x, y) ==> north_or_east_pair(x, y),
                forall|h: CellHandle| #[trigger]
                    grid.enabled(h) && h.row == 0 && h.row < r && grid.at(h).east is Some
                        ==> grid.linked(h, east_of(h)),
                tree ==> is_tree(*grid, cells, parent, rank, root) && cells == done(*grid, r as int, 0).insert(root),
            decreases grid.rows - r,
        {
            let mut c: usize = 0;
            while c < grid.cols
                invariant
                    old(grid).wf(),
                    grid.wf(),
                    grid.same_shape(*old(grid)),
                    r < grid.rows,
                    c <= grid.cols,
                    root == (CellHandle { row: 0, col: (grid.cols - 1) as usize }),
                    tree ==> old(grid).unmasked() && old(grid).unorphaned(),
                    forall|x: CellHandle, y: CellHandle| #[trigger]
                        grid.linked(x, y) && !old(grid).linked(x, y) ==> north_or_east_pair(x, y),
                    forall|h: CellHandle| #[trigger]
                        grid.enabled(h) && h.row == 0 && (h.row < r || h.col < c) && grid.at(h).east is Some
                            ==> grid.linked(h, east_of(h)),
                    tree ==> is_tree(*grid, cells, parent, rank, root) && cells == done(*grid, r as int, c as int).insert(root),
                    tree && r == 0 ==> c == 0 || c == grid.cols,
                decreases grid.cols - c,
            {
                proof {
                    grid.lemma_same_shape_keeps(*old(grid));
                }
                if grid.get(r, c).is_none() {
                    proof {
                        if tree {
                            assert(grid.in_bounds(CellHandle { row: r, col: c }));
                        }
                        assert forall|h: CellHandle| #[trigger]
                            grid.enabled(h) && h.row == 0 && (h.row < r || h.col < c + 1) && grid.at(h).east is Some
                                implies grid.linked(h, east_of(h)) by {
                            if h.row == r && h.col == c {
                                assert(CellHandle { row: r, col: c } == h);
                            }
                        }
                        if tree {
                            assert(done(*grid, r as int, c as int) =~= done(*grid, r as int, c + 1));
                        }
                    }
                    c += 1;
                } else {
                    let ghost before = *grid;
                    let end = Sidewinder::scan_run(grid, r, c, rng);
                    let st = Sidewinder::carve_run(grid, r, c, end, rng, Ghost(tree), Ghost(root), Ghost(cells), Ghost(parent), Ghost(rank));
                    proof {
                        cells = st@.0;
                        parent = st@.1;
                        rank = st@.2;
                        assert forall|x: CellHandle, y: CellHandle| #[trigger]
                            grid.linked(x, y) && !old(grid).linked(x, y) implies north_or_east_pair(x, y) by {
                            if !before.linked(x, y) {
                            }
                        }
                        assert forall|h: CellHandle| #[trigger]
                            grid.enabled(h) && h.row == 0 && (h.row < r || h.col < end + 1) && grid.at(h).east is Some
                                implies grid.linked(h, east_of(h)) by {
                            assert(before.enabled(h));
                            assert(grid.at(h).same_place(before.at(h)));
                            if h.col < c {
                                assert(before.linked(h, east_of(h)));
                            } else if h.col < end {
                                assert(grid.linked(CellHandle { row: 0, col: h.col }, CellHandle { row: 0, col: (h.col + 1) as usize }));
                            }
                        }
                        if tree && r == 0 {
                            let e = CellHandle { row: r, col: end };
                            if end + 1 < grid.cols {
                                assert(before.in_bounds(east_of(e)));
                            }
                        }
                    }
                    c = end + 1;
                }
            }
            proof {
                if tree {
                    assert(done(*grid, r as int, grid.cols as int) =~= done(*grid, r as int + 1, 0));
                }
            }
            r += 1;
        }
        proof {
            if tree {
                grid.lemma_same_shape_keeps(*old(grid));
                assert(grid.enabled(root)) by {
                    assert(grid.in_bounds(root));
                }
                assert(cells =~= Set::new(|h: CellHandle| grid.enabled(h)));
                assert(spans(*grid, cells));
            }
        }
    }

    /// Finds the run that starts at `row`, `col`: it goes east until a cell at the east edge,
    /// or one with a north neighbour that a coin flip closes. Returns its last column.
    fn scan_run(grid: &Grid, row: usize, col: usize, rng: &mut rand::rngs::StdRng) -> (end: usize)
        requires
            grid.wf(),
            grid.enabled(CellHandle { row, col }),
        ensures
            col <= end < grid.cols,
            run_ok_between(*grid, row, col, end),
            grid.at(CellHandle { row, col: end }).north is None ==> grid.at(CellHandle { row, col: end }).east is None,
    {
        let mut end = col;
        let mut closing = false;
        while !closing
            invariant
                grid.wf(),
                col <= end < grid.cols,
                run_ok_between(*grid, row, col, end),
                closing ==> (grid.at(CellHandle { row, col: end }).north is None ==> grid.at(CellHandle { row, col: end }).east is None),
            decreases grid.cols - end, if closing { 0int } else { 1int },
        {
            let h = CellHandle::new(row, end);
            proof {
                assert(grid.enabled(h));
                assert(grid.cell_ok(h));
            }
            let cell = grid.get(row, end).unwrap();
            let at_eastern_boundary = cell.east.is_none();
            let at_northern_boundary = cell.north.is_none();
            if at_eastern_boundary || (!at_northern_boundary && below(rng, 2) == 0) {
                closing = true;
            } else {
                proof {
                    let n = CellHandle { row, col: (end + 1) as usize };
                    assert(east_of(h) == n);
                    assert(grid.enabled(n));
                    assert forall|k: usize| col <= k <= end + 1 implies #[trigger] grid.enabled(CellHandle { row, col: k }) by {
                        if k == end + 1 {
                            assert(CellHandle { row, col: k } == n);
                        }
                    }
                    assert forall|k: usize| col <= k < end + 1 implies (#[trigger] grid.at(CellHandle { row, col: k })).east
                        == Some(CellHandle { row, col: (k + 1) as usize }) by {
                        if k == end {
                            assert(CellHandle { row, col: k } == h);
                        }
                    }
                }
                end += 1;
            }
        }
        end
    }

    /// Carves the run from `start` to `end` of `row`: a random member carves north if it can,
    /// then the run carves east, outwards from that member.
    #[verifier::rlimit(100)]
    #[verifier::spinoff_prover]
    fn carve_run(
        grid: &mut Grid,
        row: usize,
        start: usize,
        end: usize,
        rng: &mut rand::rngs::StdRng,
        Ghost(tree): Ghost<bool>,
        Ghost(root): Ghost<CellHandle>,
        Ghost(cells): Ghost<Set<CellHandle>>,
        Ghost(parent): Ghost<Map<CellHandle, CellHandle>>,
        Ghost(rank): Ghost<Map<CellHandle, nat>>,
    ) -> (st: Ghost<(Set<CellHandle>, Map<CellHandle, CellHandle>, Map<CellHandle, nat>)>)
        requires
            old(grid).wf(),
            row < old(grid).rows,
            start <= end < old(grid).cols,
            run_ok_between(*old(grid), row, start, end),
            old(grid).at(CellHandle { row, col: end }).north is None ==> old(grid).at(CellHandle { row, col: end }).east is None,
            root == (CellHandle { row: 0, col: (old(grid).cols - 1) as usize }),
            tree ==> old(grid).unmasked() && old(grid).unorphaned(),
            tree ==> is_tree(*old(grid), cells, parent, rank, root) && cells == done(*old(grid), row as int, start as int).insert(root),
            tree && row == 0 ==> start == 0,
        ensures
            final(grid).wf(),
            final(grid).same_shape(*old(grid)),
            forall|x: CellHandle, y: CellHandle| #[trigger]
                final(grid).linked(x, y) ==> old(grid).linked(x, y) || north_or_east_pair(x, y),
            forall|x: CellHandle, y: CellHandle| #[trigger]
                old(grid).linked(x, y) ==> final(grid).linked(x, y),
            row == 0 ==> forall|k: usize| start <= k < end ==> #[trigger] final(grid).linked(
                CellHandle { row, col: k },
                CellHandle { row, col: (k + 1) as usize },
            ),
            tree ==> is_tree(*final(grid), st@.0, st@.1, st@.2, root) && st@.0 == done(*final(grid), row as int, end + 1).insert(root),
    {
        let ghost base = cells;
        let m = start + below(rng, end - start + 1);
        let am = CellHandle::new(row, m);
        proof {
            assert(old(grid).enabled(CellHandle { row, col: m }));
            assert(grid.cell_ok(am));
        }
        let north = grid.get(row, m).unwrap().north;
        let ghost mut st1: (Set<CellHandle>, Map<CellHandle, CellHandle>, Map<CellHandle, nat>) = (cells, parent, rank);
        let center = match north {
            Some(n) => {
                proof {
                    assert(grid.adjacent(am, n));
                    if tree {
                        assert(grid.in_bounds(n));
                        assert(grid.enabled(n));
                        assert(done(*grid, row as int, start as int).contains(n));
                        assert(!cells.contains(am));
                    }
                }
                let st = carve_one(grid, am, n, Ghost(tree), Ghost(root), Ghost(cells), Ghost(parent), Ghost(rank));
                proof {
                    st1 = st@;
                    if tree {
                        assert(st1.0 =~= base.union(span(row, m as int, m as int)));
                    }
                }
                m
            },
            None => {
                proof {
                    if tree {
                        let e = CellHandle { row, col: end };
                        assert(old(grid).enabled(CellHandle { row, col: end }));
                        if row > 0 {
                            assert(grid.in_bounds(north_of(am)));
                            assert(grid.enabled(north_of(am)));
                        }
                        assert(row == 0);
                        assert(grid.cell_ok(e));
                        if end + 1 < grid.cols {
                            assert(grid.in_bounds(east_of(e)));
                        }
                        assert(e == root);
                        assert(st1.0 =~= base.union(span(row, end as int, end as int)));
                    }
                }
                end
            },
        };
        let ghost g1 = *grid;
        proof {
            lemma_run_ok_same_shape(*grid, *old(grid), row, start, end, row as int, start as int);
        }
        let st2 = carve_west(grid, row, start, center, end, Ghost(tree), Ghost(root), Ghost(base), Ghost(st1.0), Ghost(st1.1), Ghost(st1.2));
        let ghost g2 = *grid;
        proof {
            lemma_run_ok_same_shape(*grid, *old(grid), row, start, end, row as int, start as int);
            if tree && row == 0 {
                assert(center == end);
            }
        }
        let st3 = carve_east(grid, row, start, center, end, Ghost(tree), Ghost(root), Ghost(base), Ghost(st2@.0), Ghost(st2@.1), Ghost(st2@.2));
        proof {
            if tree {
                assert(st3@.0 =~= done(*grid, row as int, end + 1).insert(root)) by {
                    assert forall|h: CellHandle| #[trigger] st3@.0.contains(h) == done(*grid, row as int, end + 1).insert(root).contains(h) by {
                        assert(grid.enabled(h) == old(grid).enabled(h));
                        if h.row == row && start <= h.col <= end {
                            assert(old(grid).enabled(CellHandle { row, col: h.col }));
                        }
                    }
                }
            }
            assert forall|x: CellHandle, y: CellHandle| #[trigger]
                grid.linked(x, y) implies old(grid).linked(x, y) || north_or_east_pair(x, y) by {
                if !g2.linked(x, y) {
                } else if !g1.linked(x, y) {
                }
            }
            assert forall|x: CellHandle, y: CellHandle| #[trigger]
                old(grid).linked(x, y) implies grid.linked(x, y) by {
                assert(g1.linked(x, y));
                assert(g2.linked(x, y));
            }
            if row == 0 {
                assert forall|k: usize| start <= k < end implies #[trigger] grid.linked(
                    CellHandle { row, col: k },
                    CellHandle { row, col: (k + 1) as usize },
                ) by {
                    if k < center {
                        assert(g2.linked(CellHandle { row, col: k }, CellHandle { row, col: (k + 1) as usize }));
                    }
                }
            }
        }
        st3
    }
}

} // verus!
