//! Numbers and grids as text.

use vstd::prelude::*;
use vstd::string::*;

verus! {

/// The character that writes a single decimal digit.
pub open spec fn digit_char(d: nat) -> char {
    if d == 0 {
        '0'
    } else if d == 1 {
        '1'
    } else if d == 2 {
        '2'
    } else if d == 3 {
        '3'
    } else if d == 4 {
        '4'
    } else if d == 5 {
        '5'
    } else if d == 6 {
        '6'
    } else if d == 7 {
        '7'
    } else if d == 8 {
        '8'
    } else {
        '9'
    }
}

/// The decimal digits of a number, most significant first, without leading
/// zeros.
pub open spec fn decimal(n: nat) -> Seq<char>
    decreases n,
{
    if n < 10 {
        seq![digit_char(n)]
    } else {
        decimal(n / 10).push(digit_char(n % 10))
    }
}

/// The one-character text of a decimal digit.
pub fn digit_str(d: u8) -> (s: &'static str)
    requires
        d < 10,
    ensures
        s@ == seq![digit_char(d as nat)],
{
    proof {
        reveal_strlit("0");
        reveal_strlit("1");
        reveal_strlit("2");
        reveal_strlit("3");
        reveal_strlit("4");
        reveal_strlit("5");
        reveal_strlit("6");
        reveal_strlit("7");
        reveal_strlit("8");
        reveal_strlit("9");
    }
    let s: &'static str = match d {
        0 => "0",
        1 => "1",
        2 => "2",
        3 => "3",
        4 => "4",
        5 => "5",
        6 => "6",
        7 => "7",
        8 => "8",
        _ => "9",
    };
    assert(s@ =~= seq![digit_char(d as nat)]);
    s
}

/// Appends the decimal digits of `n` to `out`.
pub fn push_decimal(out: &mut String, n: u32)
    ensures
        final(out)@ == old(out)@ + decimal(n as nat),
    decreases n,
{
    if n >= 10 {
        push_decimal(out, n / 10);
    }
    out.append(digit_str((n % 10) as u8));
    assert(out@ =~= old(out)@ + decimal(n as nat));
}


/// The character that shows a cell: `x` for an empty one, else its digit.
pub open spec fn cell_char(value: u8) -> char {
    if value == 0 {
        'x'
    } else {
        digit_char(value as nat)
    }
}

/// A row as text: its nine cells, with a `|` before the fourth and the
/// seventh.
pub open spec fn row_text(row: Seq<u8>) -> Seq<char> {
    Seq::new(
        11,
        |j: int|
            if j == 3 || j == 7 {
                '|'
            } else {
                cell_char(row[j - j / 4])
            },
    )
}

/// The line of eleven dashes that parts the bands of parcels.
pub open spec fn separator() -> Seq<char> {
    Seq::new(11, |j: int| '-')
}

/// A grid as eleven lines: its nine rows, with a separator before the fourth
/// and the seventh.
pub open spec fn grid_lines(cells: Seq<Seq<u8>>) -> Seq<Seq<char>> {
    Seq::new(
        11,
        |k: int|
            if k == 3 || k == 7 {
                separator()
            } else {
                row_text(cells[k - k / 4])
            },
    )
}

/// The lines with a line break between each two; none after the last.
pub open spec fn join_lines(lines: Seq<Seq<char>>) -> Seq<char>
    decreases lines.len(),
{
    if lines.len() == 0 {
        Seq::empty()
    } else if lines.len() == 1 {
        lines[0]
    } else {
        join_lines(lines.drop_last()) + seq!['\n'] + lines.last()
    }
}

/// A grid as text.
pub open spec fn grid_text(cells: Seq<Seq<u8>>) -> Seq<char> {
    join_lines(grid_lines(cells))
}

/// What stands between a line of the unsolved grid and the line of the
/// solved one beside it.
pub open spec fn arrow() -> Seq<char> {
    seq![' ', '-', '>', ' ']
}

/// Two lists of lines set side by side, line by line, with an arrow between.
pub open spec fn paired_lines(left: Seq<Seq<char>>, right: Seq<Seq<char>>) -> Seq<Seq<char>> {
    Seq::new(left.len(), |k: int| left[k] + arrow() + right[k])
}

/// The views of a list of strings.
pub open spec fn line_views(lines: Seq<String>) -> Seq<Seq<char>> {
    Seq::new(lines.len(), |k: int| lines[k]@)
}

/// The one-character text of a cell.
pub fn cell_str(value: u8) -> (s: &'static str)
    requires
        value <= 9,
    ensures
        s@ == seq![cell_char(value)],
{
    if value == 0 {
        proof {
            reveal_strlit("x");
        }
        let s: &'static str = "x";
        assert(s@ =~= seq![cell_char(value)]);
        s
    } else {
        digit_str(value)
    }
}

/// Renders one row of nine digits.
pub fn row_string(row: &Vec<u8>) -> (out: String)
    requires
        row.len() == 9,
        forall|c: int| 0 <= c < 9 ==> row[c] <= 9,
    ensures
        out@ == row_text(row@),
{
    let mut out = String::new();
    let mut j: usize = 0;
    while j < 11
        invariant
            j <= 11,
            row.len() == 9,
            forall|c: int| 0 <= c < 9 ==> row[c] <= 9,
            out@ == row_text(row@).take(j as int),
        decreases 11 - j,
    {
        if j == 3 || j == 7 {
            proof {
                reveal_strlit("|");
            }
            out.append("|");
        } else {
            out.append(cell_str(row[j - j / 4]));
        }
        assert(out@ =~= row_text(row@).take(j + 1));
        j += 1;
    }
    assert(out@ =~= row_text(row@));
    out
}

/// Joins lines with a line break between each two.
pub fn join(lines: &Vec<String>) -> (out: String)
    ensures
        out@ == join_lines(line_views(lines@)),
{
    let mut out = String::new();
    let mut k: usize = 0;
    while k < lines.len()
        invariant
            k <= lines.len(),
            out@ == join_lines(line_views(lines@).take(k as int)),
        decreases lines.len() - k,
    {
        let ghost before = line_views(lines@).take(k as int);
        let ghost after = line_views(lines@).take(k + 1);
        assert(after.drop_last() =~= before);
        assert(after.last() == lines@[k as int]@);
        if k > 0 {
            proof {
                reveal_strlit("\n");
            }
            out.append("\n");
            assert("\n"@ =~= seq!['\n']);
        }
        out.append(lines[k].as_str());
        assert(out@ =~= join_lines(after));
        k += 1;
    }
    assert(line_views(lines@).take(k as int) =~= line_views(lines@));
    out
}

} // verus!
