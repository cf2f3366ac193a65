use vstd::prelude::*;

use crate::cell::CellHandle;
use crate::grid::Grid;
use crate::maze::lemma_in_box;

verus! {

/// Distances from a root cell: a map from cell to the number of passages between.
#[derive(Debug)]
pub struct Distances {
    root: CellHandle,
    keys: Vec<CellHandle>,
    vals: Vec<usize>,
}

impl View for Distances {
    type V = Map<CellHandle, usize>;

    closed spec fn view(&self) -> Map<CellHandle, usize> {
        Map::new(|k: CellHandle| self.keys@.contains(k), |k: CellHandle| self.vals@[self.keys@.index_of(k)])
    }
}

impl Distances {
    pub closed spec fn root_spec(&self) -> CellHandle {
        self.root
    }

    pub closed spec fn wf(&self) -> bool {
        &&& self.keys@.len() == self.vals@.len()
        &&& self.keys@.no_duplicates()
    }

    proof fn lemma_index(&self, i: int)
        requires
            self.wf(),
            0 <= i < self.keys@.len(),
        ensures
            self@.contains_key(self.keys@[i]),
            self@[self.keys@[i]] == self.vals@[i],
    {
        let k = self.keys@[i];
        assert(self.keys@.contains(k));
        let j = self.keys@.index_of(k);
        assert(self.keys@[j] == k);
    }

    /// Distances that know only the root, at 0.
    pub fn new(root: CellHandle) -> (d: Distances)
        ensures
            d.wf(),
            d.root_spec() == root,
            d@ == map![root => 0usize],
    {
        let d = Distances { root, keys: vec![root], vals: vec![0] };
        proof {
            d.lemma_index(0);
            assert(d@ =~= map![root => 0usize]);
        }
        d
    }

    /// The cell the distances are measured from.
    pub fn root(&self) -> (r: CellHandle)
        ensures
            r == self.root_spec(),
    {
        self.root
    }

    fn position(&self, cell: &CellHandle) -> (r: Option<usize>)
        requires
            self.wf(),
        ensures
            r matches Some(i) ==> i < self.keys@.len() && self.keys@[i as int] == *cell,
            r is None ==> !self@.contains_key(*cell),
    {
        let mut i: usize = 0;
        while i < self.keys.len()
            invariant
                self.wf(),
                i <= self.keys@.len(),
                forall|j: int| 0 <= j < i ==> self.keys@[j] != *cell,
            decreases self.keys@.len() - i,
        {
            if self.keys[i] == *cell {
                return Some(i);
            }
            i += 1;
        }
        None
    }

    /// Whether the cell has a distance.
    pub fn contains(&self, cell: &CellHandle) -> (b: bool)
        requires
            self.wf(),
        ensures
            b == self@.contains_key(*cell),
    {
        match self.position(cell) {
            Some(i) => {
                proof {
                    self.lemma_index(i as int);
                }
                true
            },
            None => false,
        }
    }

    /// The distance of the cell, if it has one.
    pub fn get_distance(&self, cell: &CellHandle) -> (r: Option<usize>)
        requires
            self.wf(),
        ensures
            r == if self@.contains_key(*cell) {
                Some(self@[*cell])
            } else {
                None
            },
    {
        match self.position(cell) {
            Some(i) => {
                proof {
                    self.lemma_index(i as int);
                }
                Some(self.vals[i])
            },
            None => None,
        }
    }

    /// Records the distance of the cell.
    pub fn set_distance(&mut self, cell: CellHandle, distance: usize)
        requires
            old(self).wf(),
        ensures
            final(self).wf(),
            final(self).root_spec() == old(self).root_spec(),
            final(self)@ == old(self)@.insert(cell, distance),
    {
        match self.position(&cell) {
            Some(i) => {
                let ghost before = *self;
                self.vals.set(i, distance);
                proof {
                    assert forall|k: CellHandle| #[trigger] self@.contains_key(k) == old(self)@.insert(cell, distance).contains_key(k) by {
                        if k == cell {
                            before.lemma_index(i as int);
                        }
                    }
                    assert forall|k: CellHandle| #[trigger] self@.contains_key(k) implies self@[k] == old(self)@.insert(cell, distance)[k] by {
                        let j = self.keys@.index_of(k);
                        assert(self.keys@.contains(k));
                        assert(self.keys@[j] == k);
                        before.lemma_index(j);
                        if k == cell {
                            assert(j == i);
                        }
                    }
                    assert(self@ =~= old(self)@.insert(cell, distance));
                }
            },
            None => {
                let ghost before = *self;
                self.keys.push(cell);
                self.vals.push(distance);
                proof {
                    assert(self.keys@.no_duplicates()) by {
                        assert forall|x: int, y: int| 0 <= x < self.keys@.len() && 0 <= y < self.keys@.len() && x != y
                            implies self.keys@[x] != self.keys@[y] by {
                            if x < before.keys@.len() && y < before.keys@.len() {
                                assert(self.keys@[x] == before.keys@[x]);
                                assert(self.keys@[y] == before.keys@[y]);
                            } else if x < before.keys@.len() {
                                assert(before.keys@.contains(self.keys@[x]));
                            } else if y < before.keys@.len() {
                                assert(before.keys@.contains(self.keys@[y]));
                            }
                        }
                    }
                    assert forall|k: CellHandle| #[trigger] self@.contains_key(k) == old(self)@.insert(cell, distance).contains_key(k) by {
                        crate::grid::lemma_push_contains(before.keys@, cell, k);
                    }
                    assert forall|k: CellHandle| #[trigger] self@.contains_key(k) implies self@[k] == old(self)@.insert(cell, distance)[k] by {
                        let j = self.keys@.index_of(k);
                        assert(self.keys@.contains(k));
                        assert(self.keys@[j] == k);
                        self.lemma_index(j);
                        if k != cell {
                            assert(j < before.keys@.len());
                            before.lemma_index(j);
                        }
                    }
                    assert(self@ =~= old(self)@.insert(cell, distance));
                }
            },
        }
    }

    /// The farthest cell and its distance: the root at 0 if no cell is farther.
    pub fn max_distance(&self) -> (r: (CellHandle, usize))
        requires
            self.wf(),
        ensures
            forall|k: CellHandle| #[trigger] self@.contains_key(k) ==> self@[k] <= r.1,
            (r.0 == self.root_spec() && r.1 == 0) || (self@.contains_key(r.0) && self@[r.0] == r.1),
            // the root at 0 when no cell is farther
            r.1 == 0 ==> r.0 == self.root_spec(),
    {
        let mut max_cell = self.root;
        let mut max_distance: usize = 0;
        let mut i: usize = 0;
        while i < self.keys.len()
            invariant
                self.wf(),
                i <= self.keys@.len(),
                forall|j: int| 0 <= j < i ==> self.vals@[j] <= max_distance,
                (max_cell == self.root && max_distance == 0) || (self@.contains_key(max_cell)
                    && self@[max_cell] == max_distance),
                max_distance == 0 ==> max_cell == self.root,
            decreases self.keys@.len() - i,
        {
            if self.vals[i] > max_distance {
                max_cell = self.keys[i];
                max_distance = self.vals[i];
                proof {
                    self.lemma_index(i as int);
                }
            }
            i += 1;
        }
        proof {
            assert forall|k: CellHandle| #[trigger] self@.contains_key(k) implies self@[k] <= max_distance by {
                let j = self.keys@.index_of(k);
                assert(self.keys@.contains(k));
                self.lemma_index(j);
            }
        }
        (max_cell, max_distance)
    }
}

/// Distances from `root` measured by breadth-first search over the passages: the root at
/// 0, each other cell one more than a linked cell, and no passage leaving the map or
/// joining cells whose distances differ by more than one.
pub open spec fn bfs_distances(grid: Grid, root: CellHandle, d: Map<CellHandle, usize>) -> bool {
    &&& d.contains_key(root)
    &&& d[root] == 0
    &&& forall|h: CellHandle| #[trigger] d.contains_key(h) ==> grid.enabled(h)
    &&& forall|h: CellHandle| #[trigger]
        d.contains_key(h) && h != root ==> exists|p: CellHandle|
            #[trigger] grid.linked(h, p) && d.contains_key(p) && d[p] + 1 == d[h]
    &&& forall|h: CellHandle, n: CellHandle| #[trigger]
        d.contains_key(h) && #[trigger] grid.linked(h, n) ==> d.contains_key(n) && d[n] <= d[h] + 1
}

/// Every cell but the root has a linked cell one closer.
#[verifier::opaque]
pub open spec fn parented(grid: Grid, root: CellHandle, d: Map<CellHandle, usize>) -> bool {
    forall|h: CellHandle| #[trigger]
        d.contains_key(h) && h != root ==> exists|p: CellHandle|
            #[trigger] grid.linked(h, p) && d.contains_key(p) && d[p] + 1 == d[h]
}

/// Every cell closer than `level` has all its linked cells in the map, at most one farther.
#[verifier::opaque]
pub open spec fn settled_below(grid: Grid, d: Map<CellHandle, usize>, level: int) -> bool {
    forall|h: CellHandle, n: CellHandle| #[trigger]
        d.contains_key(h) && d[h] < level && #[trigger] grid.linked(h, n) ==> d.contains_key(n)
            && d[n] <= d[h] + 1
}

/// Every cell of the map is enabled and at most `bound` away.
#[verifier::opaque]
pub open spec fn bounded(grid: Grid, d: Map<CellHandle, usize>, bound: int) -> bool {
    forall|h: CellHandle| #[trigger] d.contains_key(h) ==> grid.enabled(h) && d[h] <= bound
}

/// `next` lists exactly the cells at `level + 1`.
#[verifier::opaque]
pub open spec fn next_exact(d: Map<CellHandle, usize>, level: int, next: Seq<CellHandle>) -> bool {
    forall|h: CellHandle| #[trigger] d.contains_key(h) && d[h] == level + 1 <==> next.contains(h)
}

/// Gives each cell linked to `x` and not yet in the map the distance `level + 1`.
#[verifier::rlimit(40)]
fn expand(
    grid: &Grid,
    dist: &mut Distances,
    next: &mut Vec<CellHandle>,
    x: CellHandle,
    level: usize,
    Ghost(root): Ghost<CellHandle>,
    Ghost(base): Ghost<nat>,
)
    requires
        grid.wf(),
        old(dist).wf(),
        old(dist)@.contains_key(x),
        old(dist)@[x] == level,
        level < grid.rows * grid.cols,
        bounded(*grid, old(dist)@, level + 1),
        parented(*grid, root, old(dist)@),
        settled_below(*grid, old(dist)@, level as int),
        next_exact(old(dist)@, level as int, old(next)@),
        old(next)@.no_duplicates(),
        old(dist)@.dom().len() == base + old(next)@.len(),
    ensures
        final(dist).wf(),
        final(dist).root_spec() == old(dist).root_spec(),
        forall|h: CellHandle| #[trigger] old(dist)@.contains_key(h) ==> final(dist)@.contains_key(h)
            && final(dist)@[h] == old(dist)@[h],
        forall|h: CellHandle| #[trigger] final(dist)@.contains_key(h) && !old(dist)@.contains_key(h)
            ==> final(dist)@[h] == level + 1,
        bounded(*grid, final(dist)@, level + 1),
        parented(*grid, root, final(dist)@),
        settled_below(*grid, final(dist)@, level as int),
        next_exact(final(dist)@, level as int, final(next)@),
        final(next)@.no_duplicates(),
        final(dist)@.dom().len() == base + final(next)@.len(),
        forall|n: CellHandle| #[trigger] grid.linked(x, n) ==> final(dist)@.contains_key(n),
{
    proof {
        reveal(parented);
        reveal(settled_below);
        reveal(bounded);
        reveal(next_exact);
        assert(grid.enabled(x));
        assert(grid.cell_ok(x));
    }
    let cell = grid.get(x.row, x.col).unwrap();
    let mut k: usize = 0;
    while k < cell.links.len()
        invariant
            grid.wf(),
            grid.enabled(x),
            *cell == grid.at(x),
            dist.wf(),
            dist.root_spec() == old(dist).root_spec(),
            dist@.contains_key(x),
            dist@[x] == level,
            level < grid.rows * grid.cols,
            k <= cell.links@.len(),
            forall|h: CellHandle| #[trigger] old(dist)@.contains_key(h) ==> dist@.contains_key(h)
                && dist@[h] == old(dist)@[h],
            forall|h: CellHandle| #[trigger] dist@.contains_key(h) && !old(dist)@.contains_key(h)
                ==> dist@[h] == level + 1,
            bounded(*grid, dist@, level + 1),
            parented(*grid, root, dist@),
            settled_below(*grid, dist@, level as int),
            next_exact(dist@, level as int, next@),
            next@.no_duplicates(),
            dist@.dom().len() == base + next@.len(),
            forall|j: int| 0 <= j < k ==> dist@.contains_key(#[trigger] cell.links@[j]),
        decreases cell.links@.len() - k,
    {
        let y = cell.links[k];
        if !dist.contains(&y) {
            let ghost before = dist@;
            let ghost next_before = next@;
            proof {
                reveal(parented);
                reveal(settled_below);
                reveal(bounded);
                reveal(next_exact);
                assert(cell.links@.contains(y));
                assert(grid.linked(x, y));
                assert(grid.cell_ok(x));
                assert(grid.enabled(y));
                lemma_in_box(*grid, before.dom());
                assert(before.dom().insert(y).len() == before.dom().len() + 1);
            }
            dist.set_distance(y, level + 1);
            next.push(y);
            proof {
                reveal(parented);
                reveal(settled_below);
                reveal(bounded);
                reveal(next_exact);
                assert(dist@.dom() =~= before.dom().insert(y));
                assert forall|h: CellHandle| #[trigger] dist@.contains_key(h) && h != root implies exists|p: CellHandle|
                    #[trigger] grid.linked(h, p) && dist@.contains_key(p) && dist@[p] + 1 == dist@[h] by {
                    if h == y {
                        assert(grid.at(x).links@.contains(y));
                        assert(grid.linked(y, x) && dist@.contains_key(x));
                    } else {
                        let p = choose|p: CellHandle| #[trigger] grid.linked(h, p) && before.contains_key(p) && before[p] + 1 == before[h];
                        assert(grid.linked(h, p) && dist@.contains_key(p));
                    }
                }
                assert forall|h: CellHandle| #[trigger] dist@.contains_key(h) && dist@[h] == level + 1 <==> next@.contains(h) by {
                    crate::grid::lemma_push_contains(next_before, y, h);
                }
                assert(next@.no_duplicates()) by {
                    assert(!next_before.contains(y));
                    assert forall|a: int, b: int| 0 <= a < next@.len() && 0 <= b < next@.len() && a != b
                        implies next@[a] != next@[b] by {
                        if a < next_before.len() && b < next_before.len() {
                            assert(next@[a] == next_before[a] && next@[b] == next_before[b]);
                        } else if a < next_before.len() {
                            assert(next_before.contains(next@[a]));
                        } else if b < next_before.len() {
                            assert(next_before.contains(next@[b]));
                        }
                    }
                }
                assert forall|h: CellHandle, n: CellHandle|
                    dist@.contains_key(h) && dist@[h] < level && #[trigger] grid.linked(h, n) implies dist@.contains_key(n)
                        && dist@[n] <= dist@[h] + 1 by {
                    assert(before.contains_key(h));
                }
            }
        }
        k += 1;
    }
    proof {
        assert forall|n: CellHandle| #[trigger] grid.linked(x, n) implies dist@.contains_key(n) by {
            let m = cell.links@.index_of(n);
            assert(cell.links@[m] == n);
        }
    }
}

/// In breadth-first distances, the root is at 0 and every other cell is one more than the
/// nearest of the cells it has a passage to.
pub proof fn lemma_distance_is_one_more_than_nearest(
    grid: Grid,
    root: CellHandle,
    d: Map<CellHandle, usize>,
    h: CellHandle,
)
    requires
        grid.wf(),
        bfs_distances(grid, root, d),
        d.contains_key(h),
        h != root,
    ensures
        d[root] == 0,
        exists|p: CellHandle| #[trigger] grid.linked(h, p) && d.contains_key(p) && d[p] + 1 == d[h],
        forall|n: CellHandle| #[trigger] grid.linked(h, n) ==> d.contains_key(n) && d[n] + 1 >= d[h],
{
    assert forall|n: CellHandle| #[trigger] grid.linked(h, n) implies d.contains_key(n) && d[n] + 1 >= d[h] by {
        assert(grid.cell_ok(h));
        assert(grid.linked(n, h));
    }
}

/// The distance from `root` to every cell that a path of passages reaches.
pub fn distances(grid: &Grid, root: CellHandle) -> (d: Distances)
    requires
        grid.wf(),
        grid.enabled(root),
    ensures
        d.wf(),
        d.root_spec() == root,
        bfs_distances(*grid, root, d@),
{
    let mut dist = Distances::new(root);
    let mut frontier: Vec<CellHandle> = vec![root];
    let mut level: usize = 0;
    proof {
        reveal(parented);
        reveal(settled_below);
        reveal(bounded);
        lemma_in_box(*grid, dist@.dom());
        assert(dist@.dom() =~= set![root]);
        assert(dist@.dom().len() == 1);
    }
    while frontier.len() > 0
        invariant
            grid.wf(),
            dist.wf(),
            dist.root_spec() == root,
            dist@.contains_key(root),
            dist@[root] == 0,
            bounded(*grid, dist@, level as int),
            parented(*grid, root, dist@),
            settled_below(*grid, dist@, level as int),
            forall|i: int| 0 <= i < frontier@.len() ==> dist@.contains_key(#[trigger] frontier@[i])
                && dist@[frontier@[i]] == level,
            forall|h: CellHandle| #[trigger] dist@.contains_key(h) && dist@[h] == level ==> frontier@.contains(h),
            level <= dist@.dom().len() <= grid.rows * grid.cols,
            frontier@.len() > 0 ==> level < dist@.dom().len(),
        decreases grid.rows * grid.cols - dist@.dom().len(), frontier@.len(),
    {
        let ghost start = dist@;
        let ghost base = dist@.dom().len();
        let mut next: Vec<CellHandle> = Vec::new();
        let mut i: usize = 0;
        proof {
            reveal(next_exact);
            reveal(bounded);
            assert(next_exact(dist@, level as int, next@));
        }
        while i < frontier.len()
            invariant
                grid.wf(),
                dist.wf(),
                dist.root_spec() == root,
                0 < frontier@.len(),
                i <= frontier@.len(),
                level < base,
                base <= grid.rows * grid.cols,
                forall|h: CellHandle| #[trigger] start.contains_key(h) ==> dist@.contains_key(h)
                    && dist@[h] == start[h],
                forall|h: CellHandle| #[trigger] dist@.contains_key(h) && !start.contains_key(h)
                    ==> dist@[h] == level + 1,
                bounded(*grid, dist@, level + 1),
                parented(*grid, root, dist@),
                settled_below(*grid, dist@, level as int),
                next_exact(dist@, level as int, next@),
                next@.no_duplicates(),
                dist@.dom().len() == base + next@.len(),
                forall|j: int| 0 <= j < frontier@.len() ==> start.contains_key(#[trigger] frontier@[j])
                    && start[frontier@[j]] == level,
                forall|j: int, n: CellHandle| 0 <= j < i && #[trigger] grid.linked(frontier@[j], n) ==> dist@.contains_key(n),
            decreases frontier@.len() - i,
        {
            let x = frontier[i];
            proof {
                assert(start.contains_key(frontier@[i as int]));
            }
            let ghost before = dist@;
            expand(grid, &mut dist, &mut next, x, level, Ghost(root), Ghost(base));
            proof {
                assert forall|j: int, n: CellHandle| 0 <= j < i + 1 && #[trigger] grid.linked(frontier@[j], n) implies dist@.contains_key(n) by {
                    if j < i {
                        assert(before.contains_key(n));
                    }
                }
            }
            i += 1;
        }
        proof {
            reveal(settled_below);
            reveal(bounded);
            reveal(next_exact);
            assert forall|h: CellHandle, n: CellHandle|
                dist@.contains_key(h) && dist@[h] < level + 1 && #[trigger] grid.linked(h, n)
                    implies dist@.contains_key(n) && dist@[n] <= dist@[h] + 1 by {
                if dist@[h] == level {
                    assert(start.contains_key(h));
                    assert(frontier@.contains(h));
                    let j = frontier@.index_of(h);
                    assert(grid.linked(frontier@[j], n));
                }
            }
            assert forall|j: int| 0 <= j < next@.len() implies dist@.contains_key(#[trigger] next@[j])
                && dist@[next@[j]] == level + 1 by {
                assert(next@.contains(next@[j]));
            }
            assert forall|h: CellHandle| #[trigger] dist@.contains_key(h) && dist@[h] == level + 1 implies next@.contains(h) by {
            }
            assert(dist@.contains_key(root) && dist@[root] == 0) by {
                assert(start.contains_key(root));
            }
            lemma_in_box(*grid, dist@.dom());
        }
        frontier = next;
        level = level + 1;
    }
    proof {
        reveal(parented);
        reveal(settled_below);
        reveal(bounded);
        assert forall|h: CellHandle, n: CellHandle| #[trigger]
            dist@.contains_key(h) && #[trigger] grid.linked(h, n) implies dist@.contains_key(n) && dist@[n] <= dist@[h] + 1 by {
            if dist@[h] == level {
                assert(frontier@.contains(h));
            }
        }
        assert forall|h: CellHandle| #[trigger] dist@.contains_key(h) && h != root implies exists|p: CellHandle|
            #[trigger] grid.linked(h, p) && dist@.contains_key(p) && dist@[p] + 1 == dist@[h] by {
        }
    }
    dist
}

} // verus!
