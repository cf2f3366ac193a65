//! The mask text format: one line per row, `x` or `X` for a disabled cell, any other
//! character for an enabled one; blank lines and lines that start with `#` are skipped,
//! and blanks around a line are dropped.
use vstd::prelude::*;

use crate::mask::Mask;
use crate::render::string_from_chars;

verus! {

/// Why a mask text was refused.
#[derive(Debug, Clone, Copy, PartialEq, Eq, Structural)]
pub enum MaskError {
    /// No row: the text holds only blank lines and comments.
    NoRows,
    /// Two rows of different lengths.
    ColumnMismatch,
    /// More cells than the machine can count.
    TooLarge,
    /// Image bytes that do not make `width` by `height` pixels of four bytes each.
    BadImage,
}

pub open spec fn is_blank(c: char) -> bool {
    c == ' ' || c == '\t' || c == '\r'
}

pub open spec fn is_disabled_char(c: char) -> bool {
    c == 'x' || c == 'X'
}

/// The text cut at each newline; a text without one is a single line.
pub open spec fn lines_of(s: Seq<char>) -> Seq<Seq<char>>
    decreases s.len(),
{
    if s.len() == 0 {
        seq![Seq::empty()]
    } else {
        let prev = lines_of(s.drop_last());
        if s.last() == '\n' {
            prev.push(Seq::empty())
        } else {
            prev.update(prev.len() - 1, prev.last().push(s.last()))
        }
    }
}

pub open spec fn trim_start(s: Seq<char>) -> Seq<char>
    decreases s.len(),
{
    if s.len() > 0 && is_blank(s[0]) {
        trim_start(s.drop_first())
    } else {
        s
    }
}

pub open spec fn trim_end(s: Seq<char>) -> Seq<char>
    decreases s.len(),
{
    if s.len() > 0 && is_blank(s.last()) {
        trim_end(s.drop_last())
    } else {
        s
    }
}

pub open spec fn trim(s: Seq<char>) -> Seq<char> {
    trim_end(trim_start(s))
}

/// A trimmed line that is a row: not empty, not a comment.
pub open spec fn is_row(l: Seq<char>) -> bool {
    l.len() > 0 && l[0] != '#'
}

/// The rows among the lines, trimmed.
pub open spec fn kept_rows(ls: Seq<Seq<char>>) -> Seq<Seq<char>>
    decreases ls.len(),
{
    if ls.len() == 0 {
        Seq::empty()
    } else {
        let r = kept_rows(ls.drop_last());
        if is_row(trim(ls.last())) {
            r.push(trim(ls.last()))
        } else {
            r
        }
    }
}

/// The rows of a mask text.
pub open spec fn pattern_rows(s: Seq<char>) -> Seq<Seq<char>> {
    kept_rows(lines_of(s))
}

/// All rows as long as the first.
pub open spec fn rows_even(rows: Seq<Seq<char>>) -> bool {
    forall|i: int| 0 <= i < rows.len() ==> #[trigger] rows[i].len() == rows[0].len()
}

pub open spec fn views(v: Seq<Vec<char>>) -> Seq<Seq<char>> {
    Seq::new(v.len(), |i: int| v[i]@)
}

proof fn lemma_lines_nonempty(s: Seq<char>)
    ensures
        lines_of(s).len() >= 1,
    decreases s.len(),
{
    if s.len() > 0 {
        lemma_lines_nonempty(s.drop_last());
    }
}

/// Splits the text at each newline.
fn split_lines(chars: &Vec<char>) -> (lines: Vec<Vec<char>>)
    ensures
        views(lines@) == lines_of(chars@),
{
    let mut lines: Vec<Vec<char>> = vec![Vec::new()];
    let mut i: usize = 0;
    proof {
        assert(chars@.subrange(0, 0) =~= Seq::<char>::empty());
        assert(views(lines@) =~= lines_of(chars@.subrange(0, 0)));
    }
    while i < chars.len()
        invariant
            i <= chars@.len(),
            lines@.len() >= 1,
            views(lines@) == lines_of(chars@.subrange(0, i as int)),
        decreases chars@.len() - i,
    {
        let c = chars[i];
        let ghost before = views(lines@);
        proof {
            assert(chars@.subrange(0, i as int + 1).drop_last() =~= chars@.subrange(0, i as int));
        }
        if c == '\n' {
            lines.push(Vec::new());
            proof {
                assert(views(lines@) =~= before.push(Seq::empty()));
            }
        } else {
            let last = lines.len() - 1;
            let l = &mut lines[last];
            l.push(c);
            proof {
                assert(views(lines@) =~= before.update(before.len() - 1, before.last().push(c)));
            }
        }
        i += 1;
    }
    proof {
        assert(chars@.subrange(0, chars@.len() as int) =~= chars@);
    }
    lines
}

/// The line without blanks at either end.
fn trim_line(l: &Vec<char>) -> (t: Vec<char>)
    ensures
        t@ == trim(l@),
{
    let mut a: usize = 0;
    proof {
        assert(l@.subrange(0, l@.len() as int) =~= l@);
    }
    while a < l.len() && (l[a] == ' ' || l[a] == '\t' || l[a] == '\r')
        invariant
            a <= l@.len(),
            trim_start(l@) == trim_start(l@.subrange(a as int, l@.len() as int)),
        decreases l@.len() - a,
    {
        proof {
            let s = l@.subrange(a as int, l@.len() as int);
            assert(s.drop_first() =~= l@.subrange(a as int + 1, l@.len() as int));
        }
        a += 1;
    }
    let ghost start = l@.subrange(a as int, l@.len() as int);
    proof {
        assert(trim_start(start) == start);
    }
    let mut b: usize = l.len();
    while b > a && (l[b - 1] == ' ' || l[b - 1] == '\t' || l[b - 1] == '\r')
        invariant
            a <= b <= l@.len(),
            start == l@.subrange(a as int, l@.len() as int),
            trim_end(start) == trim_end(l@.subrange(a as int, b as int)),
        decreases b,
    {
        proof {
            let s = l@.subrange(a as int, b as int);
            assert(s.drop_last() =~= l@.subrange(a as int, b as int - 1));
        }
        b -= 1;
    }
    let mut t: Vec<char> = Vec::new();
    let mut k: usize = a;
    while k < b
        invariant
            a <= k <= b,
            b <= l@.len(),
            t@ == l@.subrange(a as int, k as int),
        decreases b - k,
    {
        t.push(l[k]);
        k += 1;
        proof {
            assert(t@ =~= l@.subrange(a as int, k as int));
        }
    }
    t
}

impl Mask {
    /// Reads a mask from its text.
    pub fn parse(text: &str) -> (r: Result<Mask, MaskError>)
        ensures
            ({
                let rows = pattern_rows(text@);
                &&& (r == Err::<Mask, MaskError>(MaskError::NoRows) <==> rows.len() == 0)
                &&& (r == Err::<Mask, MaskError>(MaskError::ColumnMismatch) <==> rows.len() > 0 && !rows_even(rows))
                &&& (r == Err::<Mask, MaskError>(MaskError::TooLarge) <==> rows.len() > 0 && rows_even(rows)
                    && rows.len() * rows[0].len() > usize::MAX)
                &&& r != Err::<Mask, MaskError>(MaskError::BadImage)
                // a well-formed text is read
                &&& (rows.len() > 0 && rows_even(rows) && rows.len() * rows[0].len() <= usize::MAX ==> r is Ok)
                &&& (r matches Ok(m) ==> {
                    &&& m.wf()
                    &&& m.rows == rows.len()
                    &&& m.cols == rows[0].len()
                    &&& forall|i: int, j: int|
                        0 <= i < m.rows && 0 <= j < m.cols ==> #[trigger] m.enabled(i, j) == !is_disabled_char(rows[i][j])
                })
            }),
    {
        let chars = crate::render::str_chars(text);
        let lines = split_lines(&chars);
        let mut rows: Vec<Vec<char>> = Vec::new();
        let mut j: usize = 0;
        while j < lines.len()
            invariant
                j <= lines@.len(),
                views(lines@) == lines_of(text@),
                views(rows@) == kept_rows(views(lines@).subrange(0, j as int)),
            decreases lines@.len() - j,
        {
            let t = trim_line(&lines[j]);
            let ghost before = views(rows@);
            proof {
                let ls = views(lines@).subrange(0, j as int + 1);
                assert(ls.drop_last() =~= views(lines@).subrange(0, j as int));
                assert(ls.last() == lines@[j as int]@);
            }
            if t.len() > 0 && t[0] != '#' {
                rows.push(t);
                proof {
                    assert(views(rows@) =~= before.push(t@));
                }
            }
            j += 1;
        }
        proof {
            assert(views(lines@).subrange(0, lines@.len() as int) =~= views(lines@));
        }
        let ghost rs = views(rows@);
        proof {
            assert(rs == pattern_rows(text@));
        }
        if rows.len() == 0 {
            return Err(MaskError::NoRows);
        }
        let cols = rows[0].len();
        let mut i: usize = 1;
        while i < rows.len()
            invariant
                rs == views(rows@),
                rs == pattern_rows(text@),
                rows@.len() > 0,
                cols == rs[0].len(),
                1 <= i <= rows@.len(),
                forall|k: int| 0 <= k < i ==> #[trigger] rs[k].len() == cols,
            decreases rows@.len() - i,
        {
            if rows[i].len() != cols {
                proof {
                    assert(rs[i as int].len() != rs[0].len());
                    assert(!rows_even(rs));
                }
                return Err(MaskError::ColumnMismatch);
            }
            i += 1;
        }
        let n = rows.len();
        proof {
            assert(rows_even(rs));
            assert(rs[0] == rows@[0]@);
            assert(rs[0].len() > 0) by {
                lemma_kept_rows_nonempty(views(lines@), 0);
            }
        }
        match n.checked_mul(cols) {
            None => Err(MaskError::TooLarge),
            Some(_) => {
                let mut mask = Mask::new(n, cols);
                let mut r: usize = 0;
                while r < n
                    invariant
                        mask.wf(),
                        mask.rows == n,
                        mask.cols == cols,
                        n == rows@.len(),
                        rs == views(rows@),
                        rows_even(rs),
                        cols == rs[0].len(),
                        r <= n,
                        forall|i: int, j: int|
                            0 <= i < n && 0 <= j < cols ==> #[trigger] mask.enabled(i, j) == (i >= r || !is_disabled_char(rs[i][j])),
                    decreases n - r,
                {
                    let mut c: usize = 0;
                    while c < cols
                        invariant
                            mask.wf(),
                            mask.rows == n,
                            mask.cols == cols,
                            n == rows@.len(),
                            rs == views(rows@),
                            rows_even(rs),
                            cols == rs[0].len(),
                            r < n,
                            c <= cols,
                            forall|i: int, j: int|
                                0 <= i < n && 0 <= j < cols ==> #[trigger] mask.enabled(i, j) == (i > r || (i == r && j >= c) || !is_disabled_char(rs[i][j])),
                        decreases cols - c,
                    {
                        proof {
                            assert(rs[r as int].len() == cols);
                        }
                        let ch = rows[r][c];
                        if ch == 'x' || ch == 'X' {
                            mask.set(r, c, false);
                        }
                        c += 1;
                    }
                    r += 1;
                }
                Ok(mask)
            },
        }
    }

    /// The mask as text: one line per row, `X` for a disabled cell and `.` for an enabled
    /// one, each line ended by a newline.
    pub fn to_text(&self) -> (s: String)
        requires
            self.wf(),
        ensures
            s@ == mask_text(*self, self.rows as nat),
    {
        let mut v: Vec<char> = Vec::new();
        let mut r: usize = 0;
        while r < self.rows
            invariant
                self.wf(),
                r <= self.rows,
                v@ == mask_text(*self, r as nat),
            decreases self.rows - r,
        {
            let ghost before = v@;
            let mut c: usize = 0;
            while c < self.cols
                invariant
                    self.wf(),
                    r < self.rows,
                    c <= self.cols,
                    v@ == before + row_text(*self, r as int, c as nat),
                decreases self.cols - c,
            {
                let ch = if self.get(r, c) {
                    '.'
                } else {
                    'X'
                };
                v.push(ch);
                c += 1;
                proof {
                    assert(v@ =~= before + row_text(*self, r as int, c as nat));
                }
            }
            v.push('\n');
            r += 1;
            proof {
                assert(v@ =~= mask_text(*self, r as nat));
            }
        }
        string_from_chars(&v)
    }
}

impl Mask {
    /// Reads a mask from an RGBA image, four bytes per pixel, row by row: a pixel that is
    /// not fully opaque (alpha below 255) disables its cell.
    pub fn from_rgba(width: usize, height: usize, data: &Vec<u8>) -> (r: Result<Mask, MaskError>)
        ensures
            (r == Err::<Mask, MaskError>(MaskError::NoRows) <==> width == 0 || height == 0),
            (r == Err::<Mask, MaskError>(MaskError::BadImage) <==> width > 0 && height > 0
                && width * height * 4 != data@.len()),
            r != Err::<Mask, MaskError>(MaskError::ColumnMismatch),
            r != Err::<Mask, MaskError>(MaskError::TooLarge),
            r matches Ok(m) ==> {
                &&& m.wf()
                &&& m.rows == height
                &&& m.cols == width
                &&& forall|i: int, j: int|
                    0 <= i < height && 0 <= j < width ==> #[trigger] m.enabled(i, j) == (data@[(i * width + j) * 4 + 3] == 255)
            },
    {
        let data_len = data.len();
        if width == 0 || height == 0 {
            return Err(MaskError::NoRows);
        }
        let n = match width.checked_mul(height) {
            Some(n) => n,
            None => {
                proof {
                    assert(width * height * 4 > usize::MAX) by (nonlinear_arith)
                        requires
                            width * height > usize::MAX,
                    ;
                    assert(data@.len() == data_len);
                }
                return Err(MaskError::BadImage);
            },
        };
        let len = match n.checked_mul(4) {
            Some(l) => l,
            None => {
                proof {
                    assert(data@.len() == data_len);
                }
                return Err(MaskError::BadImage);
            },
        };
        if len != data.len() {
            return Err(MaskError::BadImage);
        }
        let mut mask = Mask::new(height, width);
        let mut r: usize = 0;
        while r < height
            invariant
                mask.wf(),
                mask.rows == height,
                mask.cols == width,
                width > 0,
                data@.len() == width * height * 4,
                data@.len() == data_len,
                r <= height,
                forall|i: int, j: int|
                    0 <= i < height && 0 <= j < width ==> #[trigger] mask.enabled(i, j) == (i >= r || data@[(i * width + j) * 4 + 3] == 255),
            decreases height - r,
        {
            let mut c: usize = 0;
            while c < width
                invariant
                    mask.wf(),
                    mask.rows == height,
                    mask.cols == width,
                    width > 0,
                    data@.len() == width * height * 4,
                    data@.len() == data_len,
                    r < height,
                    c <= width,
                    forall|i: int, j: int|
                        0 <= i < height && 0 <= j < width ==> #[trigger] mask.enabled(i, j) == (i > r || (i == r && j >= c)
                            || data@[(i * width + j) * 4 + 3] == 255),
                decreases width - c,
            {
                proof {
                    crate::mask::lemma_index_bound(r as int, c as int, height as int, width as int);
                    assert((r * width + c) * 4 + 3 < data@.len()) by (nonlinear_arith)
                        requires
                            r * width + c < height * width,
                            data@.len() == width * height * 4,
                    ;
                    assert(r * width <= r * width + c);
                }
                let alpha = data[(r * width + c) * 4 + 3];
                if alpha < 255 {
                    mask.set(r, c, false);
                }
                c += 1;
            }
            r += 1;
        }
        Ok(mask)
    }
}

/// The first `c` cells of row `r` as text.
pub open spec fn row_text(m: Mask, r: int, c: nat) -> Seq<char>
    decreases c,
{
    if c == 0 {
        Seq::empty()
    } else {
        row_text(m, r, (c - 1) as nat).push(if m.enabled(r, c - 1) {
            '.'
        } else {
            'X'
        })
    }
}

/// The first `r` rows of the mask as text, each ended by a newline.
pub open spec fn mask_text(m: Mask, r: nat) -> Seq<char>
    decreases r,
{
    if r == 0 {
        Seq::empty()
    } else {
        mask_text(m, (r - 1) as nat) + row_text(m, r - 1, m.cols as nat) + seq!['\n']
    }
}

/// The text of each row, for the first `r` rows.
pub open spec fn rows_text(m: Mask, r: nat) -> Seq<Seq<char>> {
    Seq::new(r, |i: int| row_text(m, i, m.cols as nat))
}

proof fn lemma_row_text(m: Mask, r: int, c: nat)
    ensures
        row_text(m, r, c).len() == c,
        forall|j: int| 0 <= j < c ==> #[trigger] row_text(m, r, c)[j] == if m.enabled(r, j) {
            '.'
        } else {
            'X'
        },
    decreases c,
{
    if c > 0 {
        lemma_row_text(m, r, (c - 1) as nat);
    }
}

/// Characters without a newline extend the last line.
proof fn lemma_lines_extend(s: Seq<char>, row: Seq<char>)
    requires
        forall|j: int| 0 <= j < row.len() ==> #[trigger] row[j] != '\n',
    ensures
        lines_of(s + row) == lines_of(s).update(lines_of(s).len() - 1, lines_of(s).last() + row),
    decreases row.len(),
{
    lemma_lines_nonempty(s);
    if row.len() == 0 {
        assert(s + row =~= s);
        assert(lines_of(s).last() + row =~= lines_of(s).last());
        assert(lines_of(s).update(lines_of(s).len() - 1, lines_of(s).last()) =~= lines_of(s));
    } else {
        let front = row.drop_last();
        lemma_lines_extend(s, front);
        assert((s + row).drop_last() =~= s + front);
        assert((s + row).last() == row.last());
        assert(lines_of(s).last() + front + seq![row.last()] =~= lines_of(s).last() + row);
        let prev = lines_of(s + front);
        assert(row[row.len() - 1] != '\n');
        assert(prev.last() == lines_of(s).last() + front);
        assert((lines_of(s).last() + front).push(row.last()) =~= lines_of(s).last() + row);
        assert(prev.update(prev.len() - 1, prev.last().push(row.last())) =~= lines_of(s).update(
            lines_of(s).len() - 1,
            lines_of(s).last() + row,
        ));
    }
}

/// The text of the first `r` rows splits into those rows and an empty last line.
proof fn lemma_lines_of_mask_text(m: Mask, r: nat)
    requires
        m.wf(),
        r <= m.rows,
    ensures
        lines_of(mask_text(m, r)) == rows_text(m, r).push(Seq::empty()),
    decreases r,
{
    if r == 0 {
        assert(lines_of(Seq::empty()) =~= rows_text(m, 0).push(Seq::empty()));
    } else {
        let prev = mask_text(m, (r - 1) as nat);
        let row = row_text(m, r - 1, m.cols as nat);
        lemma_lines_of_mask_text(m, (r - 1) as nat);
        lemma_row_text(m, r - 1, m.cols as nat);
        lemma_lines_extend(prev, row);
        let with_row = prev + row;
        assert(mask_text(m, r) == with_row + seq!['\n']);
        assert((with_row + seq!['\n']).drop_last() =~= with_row);
        assert(lines_of(with_row) =~= rows_text(m, r));
    }
}

/// Rows of `.` and `X` are kept as they are.
proof fn lemma_kept_rows_text(m: Mask, r: nat)
    requires
        m.wf(),
    ensures
        kept_rows(rows_text(m, r)) == rows_text(m, r),
    decreases r,
{
    if r > 0 {
        lemma_kept_rows_text(m, (r - 1) as nat);
        let row = row_text(m, r - 1, m.cols as nat);
        lemma_row_text(m, r - 1, m.cols as nat);
        assert(rows_text(m, r).drop_last() =~= rows_text(m, (r - 1) as nat));
        assert(trim_start(row) == row);
        assert(trim_end(row) == row);
        assert(is_row(row));
        assert(rows_text(m, (r - 1) as nat).push(row) =~= rows_text(m, r));
    }
}

/// Writing a mask as text and reading the text back gives the same mask: as many rows and
/// columns, and each cell enabled exactly where it was.
pub proof fn lemma_mask_round_trip(m: Mask)
    requires
        m.wf(),
    ensures
        ({
            let rows = pattern_rows(mask_text(m, m.rows as nat));
            &&& rows.len() == m.rows
            &&& rows_even(rows)
            &&& rows[0].len() == m.cols
            &&& rows.len() * rows[0].len() <= usize::MAX
            &&& forall|i: int, j: int|
                0 <= i < m.rows && 0 <= j < m.cols ==> !is_disabled_char(#[trigger] rows[i][j]) == m.enabled(i, j)
        }),
{
    lemma_lines_of_mask_text(m, m.rows as nat);
    let rt = rows_text(m, m.rows as nat);
    assert(rt.push(Seq::empty()).drop_last() =~= rt);
    assert(trim(Seq::<char>::empty()) == Seq::<char>::empty());
    lemma_kept_rows_text(m, m.rows as nat);
    let rows = pattern_rows(mask_text(m, m.rows as nat));
    assert(rows == rt);
    assert forall|i: int| 0 <= i < rows.len() implies #[trigger] rows[i].len() == rows[0].len() by {
        lemma_row_text(m, i, m.cols as nat);
        lemma_row_text(m, 0, m.cols as nat);
    }
    lemma_row_text(m, 0, m.cols as nat);
    assert forall|i: int, j: int|
        0 <= i < m.rows && 0 <= j < m.cols implies !is_disabled_char(#[trigger] rows[i][j]) == m.enabled(i, j) by {
        lemma_row_text(m, i, m.cols as nat);
    }
}

/// Every row kept from a text is not empty.
proof fn lemma_kept_rows_nonempty(ls: Seq<Seq<char>>, i: int)
    requires
        0 <= i < kept_rows(ls).len(),
    ensures
        kept_rows(ls)[i].len() > 0,
    decreases ls.len(),
{
    if ls.len() > 0 {
        let r = kept_rows(ls.drop_last());
        if i < r.len() {
            lemma_kept_rows_nonempty(ls.drop_last(), i);
        }
    }
}

} // verus!
