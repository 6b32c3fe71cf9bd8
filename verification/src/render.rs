//! The textual form of the grid: one line per row, each cell printed as a
//! decimal numeral, left-aligned and padded with spaces to the width of the
//! widest numeral in the grid, every field followed by one space and every
//! row ended by one newline.

use vstd::prelude::*;
use vstd::string::StringExecFns;

use crate::grid::{Grid, GRID_SIZE};

verus! {

/// The numeral for one decimal digit.
pub open spec fn digit_char(d: int) -> char {
    if d == 0 {
        '0'
    } else if d == 1 {
        '1'
    } else if d == 2 {
        '2'
    } else if d == 3 {
        '3'
    } else if d == 4 {
        '4'
    } else if d == 5 {
        '5'
    } else if d == 6 {
        '6'
    } else if d == 7 {
        '7'
    } else if d == 8 {
        '8'
    } else {
        '9'
    }
}

/// The decimal digits of `n`, most significant first; empty for `n <= 0`.
pub open spec fn decimal_digits(n: int) -> Seq<char>
    decreases n,
{
    if n <= 0 {
        Seq::empty()
    } else {
        decimal_digits(n / 10).push(digit_char(n % 10))
    }
}

/// The decimal numeral of a non-negative `n`; zero prints as one digit.
pub open spec fn decimal_of(n: int) -> Seq<char> {
    if n == 0 {
        seq!['0']
    } else {
        decimal_digits(n)
    }
}

/// `n` spaces; none when `n` is negative.
pub open spec fn spaces(n: int) -> Seq<char> {
    Seq::new(
        if n < 0 {
            0
        } else {
            n as nat
        },
        |i: int| ' ',
    )
}

/// One printed cell: its numeral, padding up to the field width, one space.
pub open spec fn field(v: u32, w: int) -> Seq<char> {
    decimal_of(v as int) + spaces(w - decimal_of(v as int).len()) + seq![' ']
}

/// The printed fields of one row, from column `j` on.
pub open spec fn row_fields(row: Seq<u32>, w: int, j: int) -> Seq<char>
    decreases 4 - j,
{
    if j < 0 || j >= 4 {
        Seq::empty()
    } else {
        field(row[j], w) + row_fields(row, w, j + 1)
    }
}

/// The printed lines of the grid, from row `i` on, each ending in a newline.
pub open spec fn grid_lines(g: Seq<Seq<u32>>, w: int, i: int) -> Seq<char>
    decreases 4 - i,
{
    if i < 0 || i >= 4 {
        Seq::empty()
    } else {
        row_fields(g[i], w, 0) + seq!['\n'] + grid_lines(g, w, i + 1)
    }
}

/// The larger of two widths.
pub open spec fn max_int(a: int, b: int) -> int {
    if a >= b {
        a
    } else {
        b
    }
}

/// The width of the widest numeral among the cells whose row-major position
/// is at least `k`; at least one.
pub open spec fn max_width_from(g: Seq<Seq<u32>>, k: int) -> int
    decreases 16 - k,
{
    if k < 0 || k >= 16 {
        1
    } else {
        max_int(decimal_of(g[k / 4][k % 4] as int).len() as int, max_width_from(g, k + 1))
    }
}

/// The whole grid rendered with one shared field width.
pub open spec fn render_grid(g: Seq<Seq<u32>>) -> Seq<char> {
    grid_lines(g, max_width_from(g, 0), 0)
}

/// A numeral never has more digits than its value.
proof fn lemma_decimal_digits_len(n: int)
    requires
        n >= 0,
    ensures
        decimal_digits(n).len() <= n,
    decreases n,
{
    if n > 0 {
        lemma_decimal_digits_len(n / 10);
        assert(n / 10 <= n - 1) by (nonlinear_arith)
            requires
                n >= 1,
        ;
    }
}

/// The digit characters of a digit list read back to front.
pub open spec fn rev_digit_chars(d: Seq<u32>) -> Seq<char> {
    Seq::new(d.len(), |i: int| digit_char(d[d.len() - 1 - i] as int))
}

/// Append one decimal digit to the string.
fn push_digit(s: &mut String, d: u32)
    requires
        d < 10,
    ensures
        final(s)@ == old(s)@.push(digit_char(d as int)),
{
    if d == 0 {
        s.append("0");
        proof {
            reveal_strlit("0");
            assert(s@ =~= old(s)@.push(digit_char(d as int)));
        }
    } else if d == 1 {
        s.append("1");
        proof {
            reveal_strlit("1");
            assert(s@ =~= old(s)@.push(digit_char(d as int)));
        }
    } else if d == 2 {
        s.append("2");
        proof {
            reveal_strlit("2");
            assert(s@ =~= old(s)@.push(digit_char(d as int)));
        }
    } else if d == 3 {
        s.append("3");
        proof {
            reveal_strlit("3");
            assert(s@ =~= old(s)@.push(digit_char(d as int)));
        }
    } else if d == 4 {
        s.append("4");
        proof {
            reveal_strlit("4");
            assert(s@ =~= old(s)@.push(digit_char(d as int)));
        }
    } else if d == 5 {
        s.append("5");
        proof {
            reveal_strlit("5");
            assert(s@ =~= old(s)@.push(digit_char(d as int)));
        }
    } else if d == 6 {
        s.append("6");
        proof {
            reveal_strlit("6");
            assert(s@ =~= old(s)@.push(digit_char(d as int)));
        }
    } else if d == 7 {
        s.append("7");
        proof {
            reveal_strlit("7");
            assert(s@ =~= old(s)@.push(digit_char(d as int)));
        }
    } else if d == 8 {
        s.append("8");
        proof {
            reveal_strlit("8");
            assert(s@ =~= old(s)@.push(digit_char(d as int)));
        }
    } else {
        s.append("9");
        proof {
            reveal_strlit("9");
            assert(s@ =~= old(s)@.push(digit_char(d as int)));
        }
    }
}

/// Append one space to the string.
fn push_space(s: &mut String)
    ensures
        final(s)@ == old(s)@.push(' '),
{
    s.append(" ");
    proof {
        reveal_strlit(" ");
        assert(s@ =~= old(s)@.push(' '));
    }
}

/// Append one newline to the string.
fn push_newline(s: &mut String)
    ensures
        final(s)@ == old(s)@.push('\n'),
{
    s.append("\n");
    proof {
        reveal_strlit("\n");
        assert(s@ =~= old(s)@.push('\n'));
    }
}

/// The width of the decimal numeral of `v`.
fn width_of_val(v: u32) -> (w: usize)
    ensures
        w as int == decimal_of(v as int).len(),
{
    if v == 0 {
        return 1;
    }
    proof {
        lemma_decimal_digits_len(v as int);
    }
    let mut x = v;
    let mut w: usize = 0;
    while x > 0
        invariant
            decimal_digits(v as int).len() == decimal_digits(x as int).len() + w,
            decimal_digits(v as int).len() <= v,
        decreases x,
    {
        let ghost xold = x as int;
        x = x / 10;
        proof {
            assert(decimal_digits(xold) == decimal_digits(xold / 10).push(digit_char(xold % 10)));
            assert(decimal_digits(xold).len() >= 1);
        }
        w = w + 1;
    }
    w
}

/// Append the decimal numeral of `v` to the string.
fn append_decimal(s: &mut String, v: u32)
    ensures
        final(s)@ == old(s)@ + decimal_of(v as int),
{
    if v == 0 {
        push_digit(s, 0);
        proof {
            assert(s@ =~= old(s)@ + decimal_of(0));
        }
        return ;
    }
    // Gather the digits, least significant first.
    let mut rev: Vec<u32> = Vec::new();
    let mut x = v;
    proof {
        assert(rev_digit_chars(rev@) =~= Seq::<char>::empty());
        assert(decimal_digits(v as int) =~= decimal_digits(v as int) + rev_digit_chars(rev@));
    }
    while x > 0
        invariant
            decimal_digits(v as int) == decimal_digits(x as int) + rev_digit_chars(rev@),
            forall|t: int| 0 <= t < rev@.len() ==> (#[trigger] rev@[t]) < 10,
        decreases x,
    {
        let ghost xold = x as int;
        let ghost prev = rev@;
        let d = x % 10;
        x = x / 10;
        rev.push(d);
        proof {
            assert(decimal_digits(xold) == decimal_digits(xold / 10).push(digit_char(xold % 10)));
            assert(rev_digit_chars(rev@) =~= seq![digit_char(d as int)] + rev_digit_chars(prev));
            assert(decimal_digits(x as int) + rev_digit_chars(rev@) =~= decimal_digits(xold)
                + rev_digit_chars(prev));
        }
    }
    proof {
        assert(decimal_digits(0) =~= Seq::<char>::empty());
        assert(rev_digit_chars(rev@) =~= decimal_digits(v as int));
    }
    // Write them back, most significant first.
    let ghost s0 = s@;
    let mut k: usize = rev.len();
    proof {
        assert(rev_digit_chars(rev@).take(rev@.len() - k) =~= Seq::<char>::empty());
    }
    while k > 0
        invariant
            k <= rev@.len(),
            forall|t: int| 0 <= t < rev@.len() ==> (#[trigger] rev@[t]) < 10,
            s@ == s0 + rev_digit_chars(rev@).take(rev@.len() - k),
        decreases k,
    {
        let ghost spre = s@;
        k = k - 1;
        let d = rev[k];
        push_digit(s, d);
        proof {
            assert(rev_digit_chars(rev@)[rev@.len() - 1 - k] == digit_char(rev@[k as int] as int));
            assert(rev_digit_chars(rev@).take(rev@.len() - k) =~= rev_digit_chars(rev@).take(
                rev@.len() - (k + 1),
            ).push(digit_char(rev@[k as int] as int)));
            assert(s@ =~= s0 + rev_digit_chars(rev@).take(rev@.len() - k));
        }
    }
    proof {
        assert(rev_digit_chars(rev@).take(rev@.len() as int) =~= rev_digit_chars(rev@));
        assert(s@ =~= old(s)@ + decimal_of(v as int));
    }
}

impl Grid {
    /// The field width the rendering uses: the width of the widest numeral
    /// anywhere in the grid.
    fn max_width(&self) -> (w: usize)
        requires
            self.wf(),
        ensures
            w as int == max_width_from(self@, 0),
            w >= 1,
    {
        let ghost g = self@;
        let mut w: usize = 1;
        let mut k: usize = 0;
        while k < 16
            invariant
                self.wf(),
                self@ == g,
                k <= 16,
                w >= 1,
                max_int(w as int, max_width_from(g, k as int)) == max_width_from(g, 0),
            decreases 16 - k,
        {
            let i = k / 4;
            let j = k % 4;
            proof {
                assert(i < 4 && j < 4);
                assert(self.cells@[i as int]@ == self@[i as int]);
            }
            let cw = width_of_val(self.cells[i][j]);
            proof {
                assert(max_width_from(g, k as int) == max_int(
                    decimal_of(g[k as int / 4][k as int % 4] as int).len() as int,
                    max_width_from(g, k as int + 1),
                ));
            }
            if cw > w {
                w = cw;
            }
            k = k + 1;
        }
        proof {
            assert(max_width_from(g, 16) == 1);
        }
        w
    }

    /// Render the grid: `GRID_SIZE` lines of `GRID_SIZE` space-terminated
    /// fields, all padded to one shared width.
    pub fn render(&self) -> (r: String)
        requires
            self.wf(),
        ensures
            r@ == render_grid(self@),
    {
        let ghost g = self@;
        let w = self.max_width();
        let mut s = String::new();
        proof {
            assert(s@ + grid_lines(g, w as int, 0) =~= grid_lines(g, w as int, 0));
        }
        let mut i: usize = 0;
        while i < GRID_SIZE
            invariant
                self.wf(),
                self@ == g,
                i <= 4,
                w >= 1,
                w as int == max_width_from(g, 0),
                s@ + grid_lines(g, w as int, i as int) == render_grid(g),
            decreases 4 - i,
        {
            let ghost srow = s@;
            let mut j: usize = 0;
            proof {
                assert(s@ + row_fields(g[i as int], w as int, 0) =~= srow + row_fields(
                    g[i as int],
                    w as int,
                    0,
                ));
            }
            while j < GRID_SIZE
                invariant
                    self.wf(),
                    self@ == g,
                    i < 4,
                    j <= 4,
                    w >= 1,
                    s@ + row_fields(g[i as int], w as int, j as int) == srow + row_fields(
                        g[i as int],
                        w as int,
                        0,
                    ),
                decreases 4 - j,
            {
                proof {
                    assert(self.cells@[i as int]@ == self@[i as int]);
                }
                let v = self.cells[i][j];
                let cw = width_of_val(v);
                let ghost sc = s@;
                append_decimal(&mut s, v);
                let pad = if cw <= w {
                    w - cw
                } else {
                    0
                };
                proof {
                    assert(spaces(0) =~= Seq::<char>::empty());
                    assert(s@ =~= sc + decimal_of(v as int) + spaces(0));
                }
                let mut p: usize = 0;
                while p < pad
                    invariant
                        p <= pad,
                        s@ == sc + decimal_of(v as int) + spaces(p as int),
                    decreases pad - p,
                {
                    push_space(&mut s);
                    p = p + 1;
                    proof {
                        assert(s@ =~= sc + decimal_of(v as int) + spaces(p as int));
                    }
                }
                push_space(&mut s);
                proof {
                    assert(spaces(pad as int) =~= spaces(w as int - decimal_of(v as int).len()));
                    assert(s@ =~= sc + field(g[i as int][j as int], w as int));
                    assert(row_fields(g[i as int], w as int, j as int) == field(
                        g[i as int][j as int],
                        w as int,
                    ) + row_fields(g[i as int], w as int, j as int + 1));
                    assert(s@ + row_fields(g[i as int], w as int, j as int + 1) =~= sc + row_fields(
                        g[i as int],
                        w as int,
                        j as int,
                    ));
                }
                j = j + 1;
            }
            proof {
                assert(row_fields(g[i as int], w as int, 4) =~= Seq::<char>::empty());
                assert(s@ =~= srow + row_fields(g[i as int], w as int, 0));
            }
            push_newline(&mut s);
            proof {
                assert(grid_lines(g, w as int, i as int) == row_fields(g[i as int], w as int, 0)
                    + seq!['\n'] + grid_lines(g, w as int, i as int + 1));
                assert(s@ + grid_lines(g, w as int, i as int + 1) =~= srow + grid_lines(
                    g,
                    w as int,
                    i as int,
                ));
            }
            i = i + 1;
        }
        proof {
            assert(grid_lines(g, w as int, 4) =~= Seq::<char>::empty());
            assert(s@ =~= render_grid(g));
        }
        s
    }
}

} // verus!
