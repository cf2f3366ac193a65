//! Text for cell labels and the ASCII drawing of a maze.
use vstd::arithmetic::power2::{lemma2_to64, lemma_pow2_strictly_increases, lemma_pow2_unfold, pow2};
use vstd::prelude::*;

use crate::cell::CellHandle;
use crate::grid::{east_of, south_of, Grid};
use crate::solvers::Djikstra;

verus! {

/// The digits of base 36, lower case.
pub open spec fn base36_digits() -> Seq<char> {
    seq![
        '0', '1', '2', '3', '4', '5', '6', '7', '8', '9', 'a', 'b', 'c', 'd', 'e', 'f', 'g', 'h',
        'i', 'j', 'k', 'l', 'm', 'n', 'o', 'p', 'q', 'r', 's', 't', 'u', 'v', 'w', 'x', 'y', 'z',
    ]
}

/// `n` written in base 36 with lower-case digits, most significant first.
pub open spec fn base36_of(n: nat) -> Seq<char>
    decreases n,
{
    if n < 36 {
        seq![base36_digits()[n as int]]
    } else {
        base36_of(n / 36) + seq![base36_digits()[(n % 36) as int]]
    }
}

/// How many base-36 digits a label needs on a grid of `n` cells: the least `d` with
/// `36^d >= n`.
pub open spec fn digits_for(n: nat) -> nat
    decreases n,
{
    if n <= 1 {
        0
    } else {
        1 + digits_for(n / 36 + if n % 36 == 0 {
            0nat
        } else {
            1nat
        })
    }
}

/// `s` right-aligned in a field of `width` blanks.
pub open spec fn pad_left(s: Seq<char>, width: nat) -> Seq<char> {
    if s.len() >= width {
        s
    } else {
        Seq::new((width - s.len()) as nat, |_i: int| ' ') + s
    }
}

/// Relies on radix_fmt's `radix_36` and its `Display`: the number in base 36, lower case.
#[verifier::external_body]
pub(crate) fn to_base36(n: usize) -> (s: String)
    ensures
        s@ == base36_of(n as nat),
{
    radix_fmt::radix_36(n).to_string()
}

/// Relies on `String: FromIterator<&char>`: the characters, in order.
#[verifier::external_body]
pub(crate) fn string_from_chars(v: &Vec<char>) -> (s: String)
    ensures
        s@ == v@,
{
    v.iter().collect()
}

/// The number of base-36 digits a label needs on a grid of `n` cells.
pub fn digit_count(n: usize) -> (d: usize)
    ensures
        d == digits_for(n as nat),
        d < 64,
{
    let mut m = n;
    let mut d: usize = 0;
    proof {
        lemma2_to64();
    }
    while m > 1
        invariant
            d + digits_for(m as nat) == digits_for(n as nat),
            m <= n,
            m * pow2(d as nat) <= n,
            d < 64,
        decreases m,
    {
        let next = m / 36 + if m % 36 == 0 {
            0
        } else {
            1
        };
        proof {
            let q = m / 36;
            let r = m % 36;
            assert(m == 36 * q + r);
            assert(next * 2 <= m && next >= 1) by (nonlinear_arith)
                requires
                    m == 36 * q + r,
                    0 <= r < 36,
                    m >= 2,
                    next == q + if r == 0 {
                        0int
                    } else {
                        1int
                    },
            ;
            lemma_pow2_unfold((d + 1) as nat);
            let p = pow2(d as nat);
            assert(next * pow2((d + 1) as nat) <= n) by (nonlinear_arith)
                requires
                    next * 2 <= m,
                    pow2((d + 1) as nat) == 2 * p,
                    m * p <= n,
            ;
            assert(pow2((d + 1) as nat) <= n) by (nonlinear_arith)
                requires
                    next * pow2((d + 1) as nat) <= n,
                    next >= 1,
            ;
            lemma2_to64();
            if d + 1 >= 64 {
                if d + 1 > 64 {
                    lemma_pow2_strictly_increases(64, (d + 1) as nat);
                }
            }
        }
        m = next;
        d += 1;
    }
    d
}

/// `width` blanks.
pub fn spaces(width: usize) -> (s: String)
    ensures
        s@ == Seq::new(width as nat, |_i: int| ' '),
{
    let mut v: Vec<char> = Vec::new();
    let mut i: usize = 0;
    while i < width
        invariant
            i <= width,
            v@ == Seq::new(i as nat, |_i: int| ' '),
        decreases width - i,
    {
        v.push(' ');
        i += 1;
        proof {
            assert(v@ =~= Seq::new(i as nat, |_i: int| ' '));
        }
    }
    string_from_chars(&v)
}

/// The characters of a text, in order.
pub(crate) fn str_chars(t: &str) -> (v: Vec<char>)
    ensures
        v@ == t@,
{
    let n = t.unicode_len();
    let mut v: Vec<char> = Vec::new();
    let mut i: usize = 0;
    while i < n
        invariant
            n == t@.len(),
            i <= n,
            v@ == t@.subrange(0, i as int),
        decreases n - i,
    {
        v.push(t.get_char(i));
        i += 1;
        proof {
            assert(v@ =~= t@.subrange(0, i as int));
        }
    }
    proof {
        assert(v@ =~= t@);
    }
    v
}

/// The characters of a string, in order.
pub(crate) fn chars_of(s: &String) -> (v: Vec<char>)
    ensures
        v@ == s@,
{
    str_chars(s.as_str())
}

/// `s` right-aligned in a field of `width` blanks.
pub fn pad_left_string(s: String, width: usize) -> (r: String)
    ensures
        r@ == pad_left(s@, width as nat),
{
    let chars = chars_of(&s);
    if chars.len() >= width {
        s
    } else {
        let mut v: Vec<char> = Vec::new();
        let pad = width - chars.len();
        let mut i: usize = 0;
        while i < pad
            invariant
                i <= pad,
                v@ == Seq::new(i as nat, |_i: int| ' '),
            decreases pad - i,
        {
            v.push(' ');
            i += 1;
            proof {
                assert(v@ =~= Seq::new(i as nat, |_i: int| ' '));
            }
        }
        let mut j: usize = 0;
        while j < chars.len()
            invariant
                j <= chars@.len(),
                v@ == Seq::new(pad as nat, |_i: int| ' ') + chars@.subrange(0, j as int),
            decreases chars@.len() - j,
        {
            v.push(chars[j]);
            j += 1;
            proof {
                assert(v@ =~= Seq::new(pad as nat, |_i: int| ' ') + chars@.subrange(0, j as int));
            }
        }
        proof {
            assert(chars@.subrange(0, chars@.len() as int) =~= chars@);
        }
        string_from_chars(&v)
    }
}

/// `n` copies of `c`.
pub open spec fn repeat(c: char, n: nat) -> Seq<char> {
    Seq::new(n, |_i: int| c)
}

/// The label drawn inside the cell at `h`.
pub open spec fn label_of(grid: Grid, solver: Option<Djikstra>, h: CellHandle) -> Seq<char> {
    let digits = digits_for((grid.rows * grid.cols) as nat);
    match solver {
        Some(s) => if grid.enabled(h) {
            s.contents_spec(h)
        } else {
            repeat(' ', digits)
        },
        None => repeat(' ', digits),
    }
}

/// The top line's share of a cell: its label between blanks, and a wall on its east side
/// unless a passage leads there.
pub open spec fn top_cell(grid: Grid, solver: Option<Djikstra>, h: CellHandle) -> Seq<char> {
    let open = grid.enabled(h) && grid.at(h).east is Some && grid.linked(h, east_of(h));
    seq![' '] + label_of(grid, solver, h) + seq![' ', if open { ' ' } else { '|' }]
}

/// The bottom line's share of a cell: a wall on its south side unless a passage leads
/// there, and a corner.
pub open spec fn bottom_cell(grid: Grid, h: CellHandle) -> Seq<char> {
    let digits = digits_for((grid.rows * grid.cols) as nat);
    let open = grid.enabled(h) && grid.at(h).south is Some && grid.linked(h, south_of(h));
    repeat(if open { ' ' } else { '-' }, digits + 2) + seq!['+']
}

/// The top line of row `r`, up to column `c`.
pub open spec fn top_line(grid: Grid, solver: Option<Djikstra>, r: int, c: nat) -> Seq<char>
    decreases c,
{
    if c == 0 {
        seq!['|']
    } else {
        top_line(grid, solver, r, (c - 1) as nat) + top_cell(
            grid,
            solver,
            CellHandle { row: r as usize, col: (c - 1) as usize },
        )
    }
}

/// The bottom line of row `r`, up to column `c`.
pub open spec fn bottom_line(grid: Grid, r: int, c: nat) -> Seq<char>
    decreases c,
{
    if c == 0 {
        seq!['+']
    } else {
        bottom_line(grid, r, (c - 1) as nat) + bottom_cell(
            grid,
            CellHandle { row: r as usize, col: (c - 1) as usize },
        )
    }
}

/// The top border: a corner, then for each column a run of dashes and a corner.
pub open spec fn header(cols: nat, digits: nat) -> Seq<char>
    decreases cols,
{
    if cols == 0 {
        seq!['+']
    } else {
        header((cols - 1) as nat, digits) + repeat('-', digits + 2) + seq!['+']
    }
}

/// The drawing of the first `r` rows, under the top border.
pub open spec fn ascii_rows(grid: Grid, solver: Option<Djikstra>, r: nat) -> Seq<char>
    decreases r,
{
    let digits = digits_for((grid.rows * grid.cols) as nat);
    if r == 0 {
        header(grid.cols as nat, digits) + seq!['\n']
    } else {
        ascii_rows(grid, solver, (r - 1) as nat) + top_line(grid, solver, r - 1, grid.cols as nat)
            + seq!['\n'] + bottom_line(grid, r - 1, grid.cols as nat) + seq!['\n']
    }
}

/// The maze drawn in text.
pub open spec fn ascii_text(grid: Grid, solver: Option<Djikstra>) -> Seq<char> {
    ascii_rows(grid, solver, grid.rows as nat)
}

/// Appends `n` copies of `c`.
fn push_repeat(v: &mut Vec<char>, c: char, n: usize)
    ensures
        final(v)@ == old(v)@ + repeat(c, n as nat),
{
    let mut i: usize = 0;
    while i < n
        invariant
            i <= n,
            v@ == old(v)@ + repeat(c, i as nat),
        decreases n - i,
    {
        v.push(c);
        i += 1;
        proof {
            assert(v@ =~= old(v)@ + repeat(c, i as nat));
        }
    }
}

/// Appends the characters of `s`.
fn push_all(v: &mut Vec<char>, s: &Vec<char>)
    ensures
        final(v)@ == old(v)@ + s@,
{
    let mut i: usize = 0;
    while i < s.len()
        invariant
            i <= s@.len(),
            v@ == old(v)@ + s@.subrange(0, i as int),
        decreases s@.len() - i,
    {
        v.push(s[i]);
        i += 1;
        proof {
            assert(v@ =~= old(v)@ + s@.subrange(0, i as int));
        }
    }
    proof {
        assert(s@.subrange(0, s@.len() as int) =~= s@);
    }
}

/// Draws the maze in text, with the solver's labels if there is one.
pub fn render_ascii_internal(grid: &Grid, solver: Option<&Djikstra>) -> (s: String)
    requires
        grid.wf(),
        solver matches Some(sv) ==> sv.wf() && sv.grid_spec() == *grid,
    ensures
        s@ == ascii_text(*grid, match solver {
            Some(sv) => Some(*sv),
            None => None,
        }),
{
    let ghost so = match solver {
        Some(sv) => Some(*sv),
        None => None::<Djikstra>,
    };
    let digits = digit_count(grid.rows * grid.cols);
    let mut out: Vec<char> = Vec::new();
    // the top border
    out.push('+');
    let mut c: usize = 0;
    while c < grid.cols
        invariant
            grid.wf(),
            c <= grid.cols,
            digits == digits_for((grid.rows * grid.cols) as nat),
            digits < 64,
            out@ == header(c as nat, digits as nat),
        decreases grid.cols - c,
    {
        push_repeat(&mut out, '-', digits + 2);
        out.push('+');
        c += 1;
        proof {
            assert(out@ =~= header(c as nat, digits as nat));
        }
    }
    out.push('\n');
    let mut r: usize = 0;
    while r < grid.rows
        invariant
            grid.wf(),
            solver matches Some(sv) ==> sv.wf() && sv.grid_spec() == *grid,
            so == match solver {
                Some(sv) => Some(*sv),
                None => None::<Djikstra>,
            },
            r <= grid.rows,
            digits == digits_for((grid.rows * grid.cols) as nat),
            digits < 64,
            out@ == ascii_rows(*grid, so, r as nat),
        decreases grid.rows - r,
    {
        let ghost before = out@;
        // the row's cells with their east walls
        out.push('|');
        let mut c: usize = 0;
        while c < grid.cols
            invariant
                grid.wf(),
                solver matches Some(sv) ==> sv.wf() && sv.grid_spec() == *grid,
                so == match solver {
                    Some(sv) => Some(*sv),
                    None => None::<Djikstra>,
                },
                r < grid.rows,
                c <= grid.cols,
                digits == digits_for((grid.rows * grid.cols) as nat),
                digits < 64,
            digits < 64,
                out@ == before + top_line(*grid, so, r as int, c as nat),
            decreases grid.cols - c,
        {
            let h = CellHandle::new(r, c);
            let ghost mid = out@;
            out.push(' ');
            let open = match grid.get(r, c) {
                Some(cell) => {
                    match solver {
                        Some(sv) => {
                            let label = chars_of(&sv.cell_contents(r, c));
                            push_all(&mut out, &label);
                        },
                        None => push_repeat(&mut out, ' ', digits),
                    }
                    match cell.east {
                        Some(e) => cell.holds_link(e),
                        None => false,
                    }
                },
                None => {
                    push_repeat(&mut out, ' ', digits);
                    false
                },
            };
            out.push(' ');
            out.push(if open {
                ' '
            } else {
                '|'
            });
            c += 1;
            proof {
                if grid.enabled(h) {
                    assert(grid.cell_ok(h));
                }
                assert(CellHandle { row: r as usize, col: (c - 1) as usize } == h);
                assert(out@ =~= mid + top_cell(*grid, so, h));
                assert(out@ =~= before + top_line(*grid, so, r as int, c as nat));
            }
        }
        out.push('\n');
        // the row's south walls
        let ghost before_bottom = out@;
        out.push('+');
        let mut c: usize = 0;
        while c < grid.cols
            invariant
                grid.wf(),
                r < grid.rows,
                c <= grid.cols,
                digits == digits_for((grid.rows * grid.cols) as nat),
                digits < 64,
            digits < 64,
                out@ == before_bottom + bottom_line(*grid, r as int, c as nat),
            decreases grid.cols - c,
        {
            let h = CellHandle::new(r, c);
            let ghost mid = out@;
            let open = match grid.get(r, c) {
                Some(cell) => match cell.south {
                    Some(s) => cell.holds_link(s),
                    None => false,
                },
                None => false,
            };
            push_repeat(&mut out, if open {
                ' '
            } else {
                '-'
            }, digits + 2);
            out.push('+');
            c += 1;
            proof {
                if grid.enabled(h) {
                    assert(grid.cell_ok(h));
                }
                assert(CellHandle { row: r as usize, col: (c - 1) as usize } == h);
                assert(out@ =~= mid + bottom_cell(*grid, h));
                assert(out@ =~= before_bottom + bottom_line(*grid, r as int, c as nat));
            }
        }
        out.push('\n');
        r += 1;
        proof {
            assert(out@ =~= ascii_rows(*grid, so, r as nat));
        }
    }
    string_from_chars(&out)
}

} // verus!
