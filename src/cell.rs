use vstd::prelude::*;

use crate::random::below;

verus! {

/// A cell's coordinate: the only way one cell refers to another.
#[derive(Debug, Clone, Copy, PartialEq, Eq, Hash, Structural)]
pub struct CellHandle {
    pub row: usize,
    pub col: usize,
}

impl CellHandle {
    pub fn new(row: usize, col: usize) -> (h: CellHandle)
        ensures
            h.row == row,
            h.col == col,
    {
        CellHandle { row, col }
    }

    pub fn unpack(&self) -> (r: (usize, usize))
        ensures
            r == (self.row, self.col),
    {
        (self.row, self.col)
    }
}

pub open spec fn some_count(o: Option<CellHandle>) -> int {
    if o is Some {
        1
    } else {
        0
    }
}

/// The handle, if any, as a sequence of zero or one.
pub open spec fn opt_seq(o: Option<CellHandle>) -> Seq<CellHandle> {
    match o {
        Some(h) => seq![h],
        None => Seq::empty(),
    }
}

pub open spec fn opt_contains(o: Option<CellHandle>, h: CellHandle) -> bool {
    o == Some(h)
}

/// One grid position: its four static neighbours and the passages carved from it.
#[derive(Debug, Clone)]
pub struct Cell {
    pub row: usize,
    pub col: usize,
    pub north: Option<CellHandle>,
    pub south: Option<CellHandle>,
    pub east: Option<CellHandle>,
    pub west: Option<CellHandle>,
    pub links: Vec<CellHandle>,
}

impl Cell {
    pub open spec fn handle_spec(&self) -> CellHandle {
        CellHandle { row: self.row, col: self.col }
    }

    /// `h` is one of the four static neighbours.
    pub open spec fn adjacent(&self, h: CellHandle) -> bool {
        ||| opt_contains(self.north, h)
        ||| opt_contains(self.south, h)
        ||| opt_contains(self.east, h)
        ||| opt_contains(self.west, h)
    }

    /// The static neighbours in the order north, south, east, west, those that exist.
    pub open spec fn neighbor_seq(&self) -> Seq<CellHandle> {
        opt_seq(self.north) + opt_seq(self.south) + opt_seq(self.east) + opt_seq(self.west)
    }

    pub open spec fn has_neighbors_spec(&self) -> bool {
        ||| self.north is Some
        ||| self.south is Some
        ||| self.east is Some
        ||| self.west is Some
    }

    pub open spec fn is_linked_spec(&self, h: CellHandle) -> bool {
        self.links@.contains(h)
    }

    /// Everything but the links is the same.
    pub open spec fn same_place(&self, other: Cell) -> bool {
        &&& self.row == other.row
        &&& self.col == other.col
        &&& self.north == other.north
        &&& self.south == other.south
        &&& self.east == other.east
        &&& self.west == other.west
    }

    pub fn new_ortho(row: usize, col: usize) -> (c: Cell)
        ensures
            c.row == row,
            c.col == col,
            !c.has_neighbors_spec(),
            c.links@.len() == 0,
    {
        Cell { row, col, north: None, south: None, east: None, west: None, links: Vec::new() }
    }

    pub fn handle(&self) -> (h: CellHandle)
        ensures
            h == self.handle_spec(),
    {
        CellHandle { row: self.row, col: self.col }
    }

    pub fn row(&self) -> (r: usize)
        ensures
            r == self.row,
    {
        self.row
    }

    pub fn col(&self) -> (c: usize)
        ensures
            c == self.col,
    {
        self.col
    }

    pub fn has_neighbors(&self) -> (b: bool)
        ensures
            b == self.has_neighbors_spec(),
    {
        self.north.is_some() || self.south.is_some() || self.east.is_some() || self.west.is_some()
    }

    pub fn is_orphaned(&self) -> (b: bool)
        ensures
            b == !self.has_neighbors_spec(),
    {
        !self.has_neighbors()
    }

    /// The static neighbours, north, south, east and west, those that exist.
    pub(crate) fn adjacent_cells(&self) -> (v: Vec<CellHandle>)
        ensures
            v@ == self.neighbor_seq(),
            forall|h: CellHandle| v@.contains(h) <==> self.adjacent(h),
            v@.len() == 0 <==> !self.has_neighbors_spec(),
    {
        let mut v: Vec<CellHandle> = Vec::new();
        if let Some(n) = self.north {
            v.push(n);
        }
        assert(v@ =~= opt_seq(self.north));
        if let Some(n) = self.south {
            v.push(n);
        }
        assert(v@ =~= opt_seq(self.north) + opt_seq(self.south));
        if let Some(n) = self.east {
            v.push(n);
        }
        assert(v@ =~= opt_seq(self.north) + opt_seq(self.south) + opt_seq(self.east));
        if let Some(n) = self.west {
            v.push(n);
        }
        assert(v@ =~= self.neighbor_seq());
        proof {
            let a = some_count(self.north);
            let b = a + some_count(self.south);
            let c = b + some_count(self.east);
            assert forall|h: CellHandle| v@.contains(h) <==> self.adjacent(h) by {
                if self.north == Some(h) {
                    assert(v@[0] == h);
                } else if self.south == Some(h) {
                    assert(v@[a] == h);
                } else if self.east == Some(h) {
                    assert(v@[b] == h);
                } else if self.west == Some(h) {
                    assert(v@[c] == h);
                }
            }
        }
        v
    }

    /// The static neighbours of a cell that is not orphaned, in the order north, south,
    /// east, west.
    pub fn neighbors(&self) -> (v: Vec<CellHandle>)
        requires
            self.has_neighbors_spec(),
        ensures
            v@ == self.neighbor_seq(),
            forall|h: CellHandle| v@.contains(h) <==> self.adjacent(h),
            v@.len() > 0,
    {
        self.adjacent_cells()
    }

    /// One of the static neighbours, drawn at random.
    pub fn get_random_neighbor(&self, rng: &mut rand::rngs::StdRng) -> (h: CellHandle)
        requires
            self.has_neighbors_spec(),
        ensures
            self.adjacent(h),
    {
        let v = self.adjacent_cells();
        let i = below(rng, v.len());
        proof {
            assert(v@.contains(v@[i as int]));
        }
        v[i]
    }

    /// Drops all four static neighbours; the neighbours themselves are told by the grid.
    pub fn orphan(&mut self)
        ensures
            final(self).row == old(self).row,
            final(self).col == old(self).col,
            final(self).links == old(self).links,
            !final(self).has_neighbors_spec(),
    {
        self.north = None;
        self.south = None;
        self.east = None;
        self.west = None;
    }

    pub fn is_linked(&self, other: CellHandle) -> (b: bool)
        requires
            self.has_neighbors_spec(),
        ensures
            b == self.is_linked_spec(other),
    {
        self.holds_link(other)
    }

    pub(crate) fn holds_link(&self, other: CellHandle) -> (b: bool)
        ensures
            b == self.is_linked_spec(other),
    {
        let mut i: usize = 0;
        while i < self.links.len()
            invariant
                i <= self.links@.len(),
                forall|j: int| 0 <= j < i ==> self.links@[j] != other,
            decreases self.links@.len() - i,
        {
            if self.links[i] == other {
                return true;
            }
            i += 1;
        }
        false
    }

    /// Records a passage to `other` on this side only; `Grid::link_cells` does both sides.
    pub fn link(&mut self, other: CellHandle)
        requires
            old(self).has_neighbors_spec(),
        ensures
            final(self).same_place(*old(self)),
            final(self).links@ == if old(self).links@.contains(other) {
                old(self).links@
            } else {
                old(self).links@.push(other)
            },
    {
        if !self.holds_link(other) {
            self.links.push(other);
        }
    }

    /// Where `other` stands among the links, if it does.
    fn link_index(&self, other: CellHandle) -> (r: Option<usize>)
        ensures
            r matches Some(i) ==> i < self.links@.len() && self.links@[i as int] == other,
            r is None ==> !self.links@.contains(other),
    {
        let mut i: usize = 0;
        while i < self.links.len()
            invariant
                i <= self.links@.len(),
                forall|j: int| 0 <= j < i ==> self.links@[j] != other,
            decreases self.links@.len() - i,
        {
            if self.links[i] == other {
                return Some(i);
            }
            i += 1;
        }
        None
    }

    /// Removes the passage to `other` on this side only; `Grid::unlink_cells` does both sides.
    pub fn unlink(&mut self, other: CellHandle)
        requires
            old(self).links@.no_duplicates(),
        ensures
            final(self).same_place(*old(self)),
            final(self).links@.no_duplicates(),
            forall|h: CellHandle|
                final(self).links@.contains(h) <==> (old(self).links@.contains(h) && h != other),
    {
        if let Some(i) = self.link_index(other) {
            let ghost before = self.links@;
            self.links.remove(i);
            proof {
                assert forall|h: CellHandle|
                    self.links@.contains(h) <==> (before.contains(h) && h != other) by {
                    if before.contains(h) && h != other {
                        let k = before.index_of(h);
                        if k < i {
                            assert(self.links@[k] == h);
                        } else {
                            assert(self.links@[k - 1] == h);
                        }
                    }
                    if self.links@.contains(h) {
                        let k = self.links@.index_of(h);
                        if k < i {
                            assert(before[k] == h);
                        } else {
                            assert(before[k + 1] == h);
                        }
                    }
                }
                assert forall|x: int, y: int|
                    0 <= x < self.links@.len() && 0 <= y < self.links@.len() && x != y
                        implies self.links@[x] != self.links@[y] by {
                    let xx = if x < i { x } else { x + 1 };
                    let yy = if y < i { y } else { y + 1 };
                    assert(self.links@[x] == before[xx]);
                    assert(self.links@[y] == before[yy]);
                }
            }
        }
    }

    pub fn has_links(&self) -> (b: bool)
        requires
            self.has_neighbors_spec(),
        ensures
            b == (self.links@.len() > 0),
    {
        self.links.len() > 0
    }

    /// The cells this one has a passage to.
    pub fn links(&self) -> (v: Vec<CellHandle>)
        requires
            self.has_neighbors_spec(),
        ensures
            v@ == self.links@,
    {
        self.copy_links()
    }

    pub(crate) fn copy_links(&self) -> (v: Vec<CellHandle>)
        ensures
            v@ == self.links@,
    {
        let mut v: Vec<CellHandle> = Vec::new();
        let mut i: usize = 0;
        while i < self.links.len()
            invariant
                i <= self.links@.len(),
                v@ == self.links@.subrange(0, i as int),
            decreases self.links@.len() - i,
        {
            v.push(self.links[i]);
            i += 1;
            proof {
                assert(v@ =~= self.links@.subrange(0, i as int));
            }
        }
        proof {
            assert(v@ =~= self.links@);
        }
        v
    }
}

} // verus!
