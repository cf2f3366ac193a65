//! What a perfect maze is, and the facts the generators prove about the mazes they carve.
use vstd::arithmetic::div_mod::{lemma_fundamental_div_mod, lemma_fundamental_div_mod_converse};
use vstd::prelude::*;
use vstd::set_lib::{lemma_int_range, lemma_len_subset, lemma_map_size_bound, set_int_range};

use crate::cell::CellHandle;
use crate::grid::{east_of, north_of, south_of, west_of, Grid};

verus! {

/// Every handle of a `rows` by `cols` grid.
pub open spec fn cell_box(rows: int, cols: int) -> Set<CellHandle> {
    Set::new(|h: CellHandle| h.row < rows && h.col < cols)
}

/// A grid holds at most `rows * cols` handles.
pub proof fn lemma_cell_box(rows: int, cols: int)
    requires
        rows >= 0,
        cols > 0,
    ensures
        cell_box(rows, cols).finite(),
        cell_box(rows, cols).len() <= rows * cols,
{
    assert(rows * cols >= 0) by (nonlinear_arith)
        requires
            rows >= 0,
            cols > 0,
    ;
    lemma_int_range(0, rows * cols);
    let x = set_int_range(0, rows * cols);
    let f = |i: int| CellHandle { row: (i / cols) as usize, col: (i % cols) as usize };
    assert(x.map(f) =~= cell_box(rows, cols)) by {
        assert forall|h: CellHandle| #[trigger] cell_box(rows, cols).contains(h) implies x.map(f).contains(h) by {
            let i = h.row * cols + h.col;
            assert(0 <= i < rows * cols) by (nonlinear_arith)
                requires
                    i == h.row * cols + h.col,
                    0 <= h.row < rows,
                    0 <= h.col < cols,
            ;
            lemma_fundamental_div_mod_converse(i, cols, h.row as int, h.col as int);
            assert(x.contains(i));
            assert(f(i) == h);
        }
        assert forall|h: CellHandle| #[trigger] x.map(f).contains(h) implies cell_box(rows, cols).contains(h) by {
            let i = choose|i: int| x.contains(i) && f(i) == h;
            lemma_fundamental_div_mod(i, cols);
            let q = i / cols;
            let r = i % cols;
            assert(0 <= r < cols) by {
                vstd::arithmetic::div_mod::lemma_mod_pos_bound(i, cols);
            }
            assert(0 <= q < rows) by (nonlinear_arith)
                requires
                    i == cols * q + r,
                    0 <= r < cols,
                    0 <= i < rows * cols,
            ;
        }
    }
    lemma_map_size_bound(x, cell_box(rows, cols), f);
}

/// A set of handles of the grid is finite and no larger than the grid.
pub proof fn lemma_in_box(g: Grid, s: Set<CellHandle>)
    requires
        g.wf(),
        forall|h: CellHandle| #[trigger] s.contains(h) ==> g.enabled(h),
    ensures
        s.finite(),
        s.len() <= g.rows * g.cols,
{
    lemma_cell_box(g.rows as int, g.cols as int);
    assert(s.subset_of(cell_box(g.rows as int, g.cols as int)));
    lemma_len_subset(s, cell_box(g.rows as int, g.cols as int));
}

/// The cell at `h` has at least one passage.
pub open spec fn carved(g: Grid, h: CellHandle) -> bool {
    g.enabled(h) && g.at(h).links@.len() > 0
}

/// A tree of passages over `cells`, grown from `root`: every other cell of the set has
/// one recorded parent, a neighbour of lower rank, and the passages of the grid are
/// exactly the passages between a cell and its parent. Hence `cells` is joined up
/// without a cycle, one passage fewer than it has cells.
pub open spec fn is_tree(
    g: Grid,
    cells: Set<CellHandle>,
    parent: Map<CellHandle, CellHandle>,
    rank: Map<CellHandle, nat>,
    root: CellHandle,
) -> bool {
    &&& cells.finite()
    &&& cells.contains(root)
    &&& forall|h: CellHandle| #[trigger]
        cells.contains(h) ==> g.enabled(h) && rank.contains_key(h) && rank[h] < cells.len()
    &&& forall|h: CellHandle| #[trigger]
        cells.contains(h) && h != root ==> parent.contains_key(h) && cells.contains(parent[h])
            && rank[parent[h]] < rank[h] && g.adjacent(h, parent[h])
    &&& forall|x: CellHandle, y: CellHandle| #[trigger]
        g.linked(x, y) <==> (cells.contains(x) && x != root && parent[x] == y) || (cells.contains(
            y,
        ) && y != root && parent[y] == x)
    &&& cells.len() >= 2 ==> carved(g, root)
}

/// No cell outside `cells` is a neighbour of a cell inside.
pub open spec fn closed(g: Grid, cells: Set<CellHandle>) -> bool {
    forall|h: CellHandle, n: CellHandle| #[trigger]
        cells.contains(h) && #[trigger] g.adjacent(h, n) ==> cells.contains(n)
}

/// The passages of the grid form one tree that spans the set `cells`, which no passage leaves.
pub open spec fn spans(g: Grid, cells: Set<CellHandle>) -> bool {
    exists|parent: Map<CellHandle, CellHandle>, rank: Map<CellHandle, nat>, root: CellHandle|
        is_tree(g, cells, parent, rank, root)
}

/// A perfect maze: the passages form a tree over every enabled cell.
pub open spec fn perfect(g: Grid) -> bool {
    exists|cells: Set<CellHandle>|
        spans(g, cells) && forall|h: CellHandle| #[trigger] g.enabled(h) ==> cells.contains(h)
}

/// A single uncarved cell is a tree.
pub proof fn lemma_tree_start(g: Grid, root: CellHandle)
    requires
        g.wf(),
        g.uncarved(),
        g.enabled(root),
    ensures
        is_tree(g, set![root], Map::empty(), map![root => 0nat], root),
{
    let cells = set![root];
    assert(cells.len() == 1);
    assert forall|x: CellHandle, y: CellHandle| #[trigger] g.linked(x, y) implies false by {
        assert(g.at(x).links@.len() == 0);
    }
}

/// Carving from a cell of the tree to a neighbour outside it grows the tree by that neighbour.
#[verifier::rlimit(60)]
pub proof fn lemma_tree_extend(
    g0: Grid,
    g1: Grid,
    cells: Set<CellHandle>,
    parent: Map<CellHandle, CellHandle>,
    rank: Map<CellHandle, nat>,
    root: CellHandle,
    cur: CellHandle,
    n: CellHandle,
)
    requires
        g0.wf(),
        is_tree(g0, cells, parent, rank, root),
        cells.contains(cur),
        !cells.contains(n),
        g0.adjacent(n, cur),
        g1.same_shape(g0),
        forall|x: CellHandle, y: CellHandle| #[trigger]
            g1.linked(x, y) <==> (g0.linked(x, y) || (x == cur && y == n) || (x == n && y == cur)),
    ensures
        is_tree(g1, cells.insert(n), parent.insert(n, cur), rank.insert(n, cells.len()), root),
        cells.insert(n).len() == cells.len() + 1,
{
    let c1 = cells.insert(n);
    let p1 = parent.insert(n, cur);
    let r1 = rank.insert(n, cells.len());
    assert(c1.len() == cells.len() + 1);
    assert forall|h: CellHandle| #[trigger] c1.contains(h) implies g1.enabled(h) && r1.contains_key(h)
        && r1[h] < c1.len() by {
        if h != n {
            assert(g0.enabled(h));
        }
    }
    assert forall|h: CellHandle| #[trigger] c1.contains(h) && h != root implies p1.contains_key(h)
        && c1.contains(p1[h]) && r1[p1[h]] < r1[h] && g1.adjacent(h, p1[h]) by {
        if h == n {
            assert(g0.enabled(n));
            assert(g1.at(n).same_place(g0.at(n)));
        } else {
            assert(g0.enabled(h));
            assert(g1.at(h).same_place(g0.at(h)));
            assert(parent[h] != n);
        }
    }
    assert forall|x: CellHandle, y: CellHandle| #[trigger]
        g1.linked(x, y) <==> (c1.contains(x) && x != root && p1[x] == y) || (c1.contains(y) && y
            != root && p1[y] == x) by {
        if g0.linked(x, y) {
            if cells.contains(x) && x != root && parent[x] == y {
            } else {
                assert(cells.contains(y) && y != root && parent[y] == x);
            }
        }
    }
    assert(g1.linked(cur, n));
    assert(g1.linked(n, cur));
    if cells.len() >= 2 {
        assert(carved(g0, root));
        let k = g0.at(root).links@[0];
        assert(g0.linked(root, k));
        assert(g1.linked(root, k));
    } else {
        assert(cells.len() == 1);
        assert(cells.contains(cur));
        if cur != root {
            assert(cells.remove(root).contains(cur));
            assert(cells.remove(root).len() == 0);
        }
    }
}

/// In a perfect maze of two or more cells, every cell has a passage.
pub proof fn lemma_perfect_carves_all(g: Grid, a: CellHandle, b: CellHandle)
    requires
        perfect(g),
        g.enabled(a),
        g.enabled(b),
        a != b,
    ensures
        forall|h: CellHandle| #[trigger] g.enabled(h) ==> carved(g, h),
{
    let cells = choose|cells: Set<CellHandle>|
        spans(g, cells) && forall|h: CellHandle| #[trigger] g.enabled(h) ==> cells.contains(h);
    let (parent, rank, root) = choose|parent: Map<CellHandle, CellHandle>, rank: Map<CellHandle, nat>, root: CellHandle|
        is_tree(g, cells, parent, rank, root);
    assert(cells.contains(a) && cells.contains(b));
    assert(cells.len() >= 2) by {
        let s = set![a, b];
        vstd::set_lib::lemma_len_subset(s, cells);
    }
    assert forall|h: CellHandle| #[trigger] g.enabled(h) implies carved(g, h) by {
        assert(cells.contains(h));
        if h != root {
            assert(g.linked(h, parent[h]));
        }
    }
}

/// The passages of a tree, each taken once from the cell to its parent.
pub open spec fn tree_edges(
    cells: Set<CellHandle>,
    parent: Map<CellHandle, CellHandle>,
    root: CellHandle,
) -> Set<(CellHandle, CellHandle)> {
    Set::new(|e: (CellHandle, CellHandle)| cells.contains(e.0) && e.0 != root && e.1 == parent[e.0])
}

/// A tree over `n` cells has `n - 1` passages: each passage of the grid joins a cell and
/// its parent, and each cell but the root has one parent.
pub proof fn lemma_tree_edge_count(
    g: Grid,
    cells: Set<CellHandle>,
    parent: Map<CellHandle, CellHandle>,
    rank: Map<CellHandle, nat>,
    root: CellHandle,
)
    requires
        is_tree(g, cells, parent, rank, root),
    ensures
        tree_edges(cells, parent, root).finite(),
        tree_edges(cells, parent, root).len() == cells.len() - 1,
        forall|x: CellHandle, y: CellHandle| #[trigger]
            g.linked(x, y) <==> tree_edges(cells, parent, root).contains((x, y)) || tree_edges(
                cells,
                parent,
                root,
            ).contains((y, x)),
{
    let others = cells.remove(root);
    let f = |h: CellHandle| (h, parent[h]);
    assert(vstd::relations::injective_on(f, others)) by {
        assert forall|a: CellHandle, b: CellHandle| others.contains(a) && others.contains(b) && #[trigger] f(a) == #[trigger] f(b) implies a == b by {
        }
    }
    assert(others.map(f) =~= tree_edges(cells, parent, root)) by {
        assert forall|e: (CellHandle, CellHandle)| #[trigger] tree_edges(cells, parent, root).contains(e) implies others.map(f).contains(e) by {
            assert(others.contains(e.0));
            assert(f(e.0) == e);
        }
    }
    vstd::set_lib::lemma_map_size(others, tree_edges(cells, parent, root), f);
    assert(others.len() == cells.len() - 1);
}

/// A sequence of cells, each with a passage to the next.
pub open spec fn is_link_path(g: Grid, p: Seq<CellHandle>) -> bool {
    &&& p.len() >= 1
    &&& forall|i: int| 0 <= i < p.len() - 1 ==> #[trigger] g.linked(p[i], p[i + 1])
}

/// In a tree every cell of the set reaches the root through passages.
pub proof fn lemma_tree_reaches_root(
    g: Grid,
    cells: Set<CellHandle>,
    parent: Map<CellHandle, CellHandle>,
    rank: Map<CellHandle, nat>,
    root: CellHandle,
    h: CellHandle,
) -> (p: Seq<CellHandle>)
    requires
        is_tree(g, cells, parent, rank, root),
        cells.contains(h),
    ensures
        is_link_path(g, p),
        p[0] == h,
        p.last() == root,
    decreases rank[h],
{
    if h == root {
        seq![h]
    } else {
        let q = lemma_tree_reaches_root(g, cells, parent, rank, root, parent[h]);
        let p = seq![h] + q;
        assert(g.linked(h, parent[h]));
        assert forall|i: int| 0 <= i < p.len() - 1 implies #[trigger] g.linked(p[i], p[i + 1]) by {
            if i > 0 {
                let j = i - 1;
                assert(p[i] == q[j]);
                assert(p[i + 1] == q[j + 1]);
                assert(g.linked(q[j], q[j + 1]));
            }
        }
        p
    }
}

/// Along a row of an unmasked grid a closed set that holds one cell holds them all.
proof fn lemma_closed_row(g: Grid, cells: Set<CellHandle>, r: usize, c0: usize, c: usize)
    requires
        g.wf(),
        g.unmasked(),
        g.unorphaned(),
        closed(g, cells),
        r < g.rows,
        c0 < g.cols,
        c < g.cols,
        cells.contains(CellHandle { row: r, col: c0 }),
    ensures
        cells.contains(CellHandle { row: r, col: c }),
    decreases if c > c0 {
        c - c0
    } else {
        c0 - c
    },
{
    let h = CellHandle { row: r, col: c };
    assert(g.in_bounds(h));
    if c > c0 {
        let w = CellHandle { row: r, col: (c - 1) as usize };
        lemma_closed_row(g, cells, r, c0, (c - 1) as usize);
        assert(g.in_bounds(w));
        assert(g.enabled(w));
        assert(east_of(w) == h);
        assert(g.enabled(h));
        assert(g.adjacent(w, h));
    } else if c < c0 {
        let e = CellHandle { row: r, col: (c + 1) as usize };
        lemma_closed_row(g, cells, r, c0, (c + 1) as usize);
        assert(g.in_bounds(e));
        assert(g.enabled(e));
        assert(west_of(e) == h);
        assert(g.enabled(h));
        assert(g.adjacent(e, h));
    }
}

/// Along a column of an unmasked grid a closed set that holds one cell holds them all.
proof fn lemma_closed_col(g: Grid, cells: Set<CellHandle>, r0: usize, r: usize, c: usize)
    requires
        g.wf(),
        g.unmasked(),
        g.unorphaned(),
        closed(g, cells),
        r0 < g.rows,
        r < g.rows,
        c < g.cols,
        cells.contains(CellHandle { row: r0, col: c }),
    ensures
        cells.contains(CellHandle { row: r, col: c }),
    decreases if r > r0 {
        r - r0
    } else {
        r0 - r
    },
{
    let h = CellHandle { row: r, col: c };
    assert(g.in_bounds(h));
    if r > r0 {
        let n = CellHandle { row: (r - 1) as usize, col: c };
        lemma_closed_col(g, cells, r0, (r - 1) as usize, c);
        assert(g.in_bounds(n));
        assert(g.enabled(n));
        assert(south_of(n) == h);
        assert(g.enabled(h));
        assert(g.adjacent(n, h));
    } else if r < r0 {
        let s = CellHandle { row: (r + 1) as usize, col: c };
        lemma_closed_col(g, cells, r0, (r + 1) as usize, c);
        assert(g.in_bounds(s));
        assert(g.enabled(s));
        assert(north_of(s) == h);
        assert(g.enabled(h));
        assert(g.adjacent(s, h));
    }
}

/// In an unmasked grid, a closed set with one cell holds every cell.
pub proof fn lemma_closed_covers(g: Grid, cells: Set<CellHandle>, w: CellHandle)
    requires
        g.wf(),
        g.unmasked(),
        g.unorphaned(),
        closed(g, cells),
        cells.contains(w),
        g.enabled(w),
    ensures
        forall|h: CellHandle| #[trigger] g.enabled(h) ==> cells.contains(h),
{
    assert forall|h: CellHandle| #[trigger] g.enabled(h) implies cells.contains(h) by {
        lemma_closed_row(g, cells, w.row, w.col, h.col);
        lemma_closed_col(g, cells, w.row, h.row, h.col);
    }
}

/// A tree that spans a closed set of an unmasked grid makes a perfect maze.
pub proof fn lemma_closed_tree_perfect(
    g: Grid,
    cells: Set<CellHandle>,
    parent: Map<CellHandle, CellHandle>,
    rank: Map<CellHandle, nat>,
    root: CellHandle,
)
    requires
        g.wf(),
        g.unmasked(),
        g.unorphaned(),
        is_tree(g, cells, parent, rank, root),
        closed(g, cells),
    ensures
        perfect(g),
{
    lemma_closed_covers(g, cells, root);
    assert(spans(g, cells));
}

} // verus!
