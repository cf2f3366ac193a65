use vstd::prelude::*;

use crate::random::below;

verus! {

#[verifier::external_type_specification]
#[verifier::external_body]
#[verifier::reject_recursive_types(B)]
pub struct ExBitVec<B>(bit_vec::BitVec<B>);

/// The bits a `BitVec` holds, in order.
pub uninterp spec fn bits_of(v: bit_vec::BitVec) -> Seq<bool>;

/// Relies on `BitVec::from_elem`: `n` bits, each equal to `bit`.
#[verifier::external_body]
fn bits_filled(n: usize, bit: bool) -> (r: bit_vec::BitVec)
    ensures
        bits_of(r) == Seq::new(n as nat, |_i: int| bit),
{
    bit_vec::BitVec::from_elem(n, bit)
}

/// Relies on `BitVec::get`: the bit at `i`, or `None` past the end.
#[verifier::external_body]
fn bit_at(v: &bit_vec::BitVec, i: usize) -> (r: Option<bool>)
    ensures
        i < bits_of(*v).len() ==> r == Some(bits_of(*v)[i as int]),
        i >= bits_of(*v).len() ==> r is None,
{
    v.get(i)
}

/// Relies on `BitVec::set`: the bit at `i` becomes `x` (it panics past the end).
#[verifier::external_body]
fn set_bit(v: &mut bit_vec::BitVec, i: usize, x: bool)
    requires
        i < bits_of(*old(v)).len(),
    ensures
        bits_of(*final(v)) == bits_of(*old(v)).update(i as int, x),
{
    v.set(i, x)
}

/// `row * cols + col` stays below `rows * cols`.
pub proof fn lemma_index_bound(row: int, col: int, rows: int, cols: int)
    requires
        0 <= row < rows,
        0 <= col < cols,
    ensures
        0 <= row * cols + col < rows * cols,
        row * cols + col >= row * cols,
{
    assert(0 <= row * cols + col < rows * cols) by (nonlinear_arith)
        requires
            0 <= row < rows,
            0 <= col < cols,
    ;
}

/// Different positions of a row-major layout have different indices.
pub proof fn lemma_index_unique(r1: int, c1: int, r2: int, c2: int, cols: int)
    requires
        0 <= c1 < cols,
        0 <= c2 < cols,
        0 <= r1,
        0 <= r2,
        r1 * cols + c1 == r2 * cols + c2,
    ensures
        r1 == r2 && c1 == c2,
{
    if r1 < r2 {
        assert(r1 * cols + cols <= r2 * cols) by (nonlinear_arith)
            requires
                r1 < r2,
                0 < cols,
        ;
    } else if r2 < r1 {
        assert(r2 * cols + cols <= r1 * cols) by (nonlinear_arith)
            requires
                r2 < r1,
                0 < cols,
        ;
    }
}

/// The number of `true` entries.
pub open spec fn count_true(s: Seq<bool>) -> nat
    decreases s.len(),
{
    if s.len() == 0 {
        0
    } else {
        count_true(s.drop_last()) + if s.last() {
            1nat
        } else {
            0nat
        }
    }
}

/// A sequence with a `true` entry counts at least one.
pub proof fn lemma_count_true_positive(s: Seq<bool>, i: int)
    requires
        0 <= i < s.len(),
        s[i],
    ensures
        count_true(s) > 0,
    decreases s.len(),
{
    if i < s.len() - 1 {
        lemma_count_true_positive(s.drop_last(), i);
    }
}

/// A mask with an enabled cell counts at least one.
pub proof fn lemma_count_positive(m: Mask, row: int, col: int)
    requires
        m.wf(),
        0 <= row < m.rows,
        0 <= col < m.cols,
        m.enabled(row, col),
    ensures
        count_true(m.bits()) > 0,
{
    lemma_index_bound(row, col, m.rows as int, m.cols as int);
    lemma_count_true_positive(m.bits(), m.index_spec(row, col));
}

/// Which cells of a `rows` by `cols` grid are enabled.
#[derive(Debug)]
pub struct Mask {
    pub rows: usize,
    pub cols: usize,
    pub bits: bit_vec::BitVec,
}

impl Mask {
    /// The enabled flags, row by row.
    pub open spec fn bits(&self) -> Seq<bool> {
        bits_of(self.bits)
    }

    pub open spec fn wf(&self) -> bool {
        &&& self.rows > 0
        &&& self.cols > 0
        &&& self.rows * self.cols <= usize::MAX
        &&& self.bits().len() == self.rows * self.cols
    }

    pub open spec fn index_spec(&self, row: int, col: int) -> int {
        row * self.cols + col
    }

    /// Whether the cell at `row`, `col` is enabled.
    pub open spec fn enabled(&self, row: int, col: int) -> bool {
        self.bits()[self.index_spec(row, col)]
    }

    /// A mask of the given size with every cell enabled.
    pub fn new(rows: usize, cols: usize) -> (m: Mask)
        requires
            rows > 0,
            cols > 0,
            rows * cols <= usize::MAX,
        ensures
            m.wf(),
            m.rows == rows,
            m.cols == cols,
            forall|r: int, c: int| 0 <= r < rows && 0 <= c < cols ==> m.enabled(r, c),
    {
        let m = Mask { rows, cols, bits: bits_filled(rows * cols, true) };
        proof {
            assert forall|r: int, c: int| 0 <= r < rows && 0 <= c < cols implies m.enabled(r, c) by {
                lemma_index_bound(r, c, rows as int, cols as int);
            }
        }
        m
    }

    /// The number of cells, enabled or not.
    pub fn size(&self) -> (n: usize)
        requires
            self.wf(),
        ensures
            n == self.rows * self.cols,
    {
        self.rows * self.cols
    }

    pub(crate) fn index(&self, row: usize, col: usize) -> (i: usize)
        requires
            self.wf(),
            row < self.rows,
            col < self.cols,
        ensures
            i == self.index_spec(row as int, col as int),
            i < self.bits().len(),
    {
        proof {
            lemma_index_bound(row as int, col as int, self.rows as int, self.cols as int);
        }
        row * self.cols + col
    }

    /// Whether the cell at `row`, `col` is enabled.
    pub fn get(&self, row: usize, col: usize) -> (b: bool)
        requires
            self.wf(),
            row < self.rows,
            col < self.cols,
        ensures
            b == self.enabled(row as int, col as int),
    {
        let i = self.index(row, col);
        match bit_at(&self.bits, i) {
            Some(b) => b,
            None => false,
        }
    }

    /// Enables or disables the cell at `row`, `col`.
    pub fn set(&mut self, row: usize, col: usize, v: bool)
        requires
            old(self).wf(),
            row < old(self).rows,
            col < old(self).cols,
        ensures
            final(self).wf(),
            final(self).rows == old(self).rows,
            final(self).cols == old(self).cols,
            forall|r: int, c: int|
                0 <= r < final(self).rows && 0 <= c < final(self).cols ==> #[trigger] final(self).enabled(r, c) == if r == row && c == col {
                    v
                } else {
                    old(self).enabled(r, c)
                },
    {
        let i = self.index(row, col);
        set_bit(&mut self.bits, i, v);
        proof {
            assert forall|r: int, c: int|
                0 <= r < self.rows && 0 <= c < self.cols implies #[trigger] self.enabled(r, c)
                    == if r == row && c == col {
                    v
                } else {
                    old(self).enabled(r, c)
                } by {
                lemma_index_bound(r, c, self.rows as int, self.cols as int);
                if r * self.cols + c == i {
                    lemma_index_unique(r, c, row as int, col as int, self.cols as int);
                }
            }
        }
    }

    /// The number of enabled cells.
    pub fn count(&self) -> (n: usize)
        requires
            self.wf(),
        ensures
            n == count_true(self.bits()),
    {
        let len = self.rows * self.cols;
        let mut n: usize = 0;
        let mut i: usize = 0;
        while i < len
            invariant
                self.wf(),
                len == self.bits().len(),
                i <= len,
                n == count_true(self.bits().subrange(0, i as int)),
                n <= i,
            decreases len - i,
        {
            let ghost s = self.bits().subrange(0, i as int + 1);
            assert(s.drop_last() =~= self.bits().subrange(0, i as int));
            if let Some(true) = bit_at(&self.bits, i) {
                n += 1;
            }
            i += 1;
        }
        assert(self.bits().subrange(0, len as int) =~= self.bits());
        n
    }

    /// The first enabled cell in row-major order, if any.
    pub fn get_first_enabled(&self) -> (r: Option<(usize, usize)>)
        requires
            self.wf(),
        ensures
            r matches Some(p) ==> p.0 < self.rows && p.1 < self.cols && self.enabled(
                p.0 as int,
                p.1 as int,
            ),
            r is None ==> forall|rr: int, cc: int|
                0 <= rr < self.rows && 0 <= cc < self.cols ==> !#[trigger] self.enabled(rr, cc),
    {
        let mut row: usize = 0;
        while row < self.rows
            invariant
                self.wf(),
                row <= self.rows,
                forall|rr: int, cc: int|
                    0 <= rr < row && 0 <= cc < self.cols ==> !#[trigger] self.enabled(rr, cc),
            decreases self.rows - row,
        {
            let mut col: usize = 0;
            while col < self.cols
                invariant
                    self.wf(),
                    row < self.rows,
                    col <= self.cols,
                    forall|rr: int, cc: int|
                        0 <= rr < row && 0 <= cc < self.cols ==> !#[trigger] self.enabled(rr, cc),
                    forall|cc: int| 0 <= cc < col ==> !#[trigger] self.enabled(row as int, cc),
                decreases self.cols - col,
            {
                if self.get(row, col) {
                    return Some((row, col));
                }
                col += 1;
            }
            row += 1;
        }
        None
    }

    /// An enabled cell drawn at random, each enabled cell alike.
    pub fn get_random(&self, rng: &mut rand::rngs::StdRng) -> (r: (usize, usize))
        requires
            self.wf(),
            count_true(self.bits()) > 0,
        ensures
            r.0 < self.rows,
            r.1 < self.cols,
            self.enabled(r.0 as int, r.1 as int),
    {
        let total = self.count();
        let k = below(rng, total);
        // walk to the k-th enabled cell
        let mut seen: usize = 0;
        let mut row: usize = 0;
        let ghost mut i: int = 0;
        while row < self.rows
            invariant
                self.wf(),
                row <= self.rows,
                k < total,
                total == count_true(self.bits()),
                i == row * self.cols,
                i <= self.bits().len(),
                seen == count_true(self.bits().subrange(0, i)),
                seen <= k,
            decreases self.rows - row,
        {
            let mut col: usize = 0;
            while col < self.cols
                invariant
                    self.wf(),
                    row < self.rows,
                    col <= self.cols,
                    k < total,
                    total == count_true(self.bits()),
                    i == row * self.cols + col,
                    i <= self.bits().len(),
                    seen == count_true(self.bits().subrange(0, i)),
                    seen <= k,
                decreases self.cols - col,
            {
                proof {
                    lemma_index_bound(row as int, col as int, self.rows as int, self.cols as int);
                    let s = self.bits().subrange(0, i + 1);
                    assert(s.drop_last() =~= self.bits().subrange(0, i));
                }
                if self.get(row, col) {
                    if seen == k {
                        return (row, col);
                    }
                    seen += 1;
                }
                col += 1;
                proof {
                    i = i + 1;
                }
            }
            row += 1;
            proof {
                assert(i == row * self.cols) by (nonlinear_arith)
                    requires
                        i == (row - 1) * self.cols + self.cols,
                ;
            }
        }
        proof {
            assert(i == self.rows * self.cols);
            assert(self.bits().subrange(0, i) =~= self.bits());
        }
        (0, 0)
    }
}

} // verus!
