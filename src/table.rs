//! Decimal numbers and left-aligned text tables.
use vstd::prelude::*;
use vstd::string::*;

verus! {

pub open spec fn digit_char(d: nat) -> char {
    seq!['0', '1', '2', '3', '4', '5', '6', '7', '8', '9'][d as int]
}

/// The decimal digits of `n`, without leading zeros.
pub open spec fn decimal(n: nat) -> Seq<char>
    decreases n,
{
    if n < 10 {
        seq![digit_char(n)]
    } else {
        decimal(n / 10).push(digit_char(n % 10))
    }
}

pub open spec fn spaces(k: nat) -> Seq<char> {
    Seq::new(k, |_i: int| ' ')
}

/// Length of cell `j` of a row, 0 where the row has no such cell.
pub open spec fn cell_len(row: Seq<Seq<char>>, j: int) -> nat {
    if 0 <= j < row.len() {
        row[j].len()
    } else {
        0
    }
}

/// Width of column `j`: its widest cell.
pub open spec fn col_width(m: Seq<Seq<Seq<char>>>, j: int) -> nat
    decreases m.len(),
{
    if m.len() == 0 {
        0
    } else {
        let w = col_width(m.drop_last(), j);
        let c = cell_len(m.last(), j);
        if c > w {
            c
        } else {
            w
        }
    }
}

/// Cells `j..` of `row`: each cell but the last padded with spaces to its
/// column's width and followed by one space; the line ends in a newline.
pub open spec fn line_from(m: Seq<Seq<Seq<char>>>, row: Seq<Seq<char>>, j: int) -> Seq<char>
    decreases row.len() - j,
{
    if j + 1 >= row.len() {
        (if 0 <= j < row.len() {
            row[j]
        } else {
            Seq::<char>::empty()
        }).push('\n')
    } else {
        row[j] + spaces((col_width(m, j) - row[j].len()) as nat) + seq![' '] + line_from(
            m,
            row,
            j + 1,
        )
    }
}

/// Rows `r..` of the table, one line each.
pub open spec fn table_from(m: Seq<Seq<Seq<char>>>, r: int) -> Seq<char>
    decreases m.len() - r,
{
    if r >= m.len() || r < 0 {
        Seq::<char>::empty()
    } else {
        line_from(m, m[r], 0) + table_from(m, r + 1)
    }
}

pub open spec fn table_text(m: Seq<Seq<Seq<char>>>) -> Seq<char> {
    table_from(m, 0)
}

pub open spec fn matrix_view(m: Seq<Vec<String>>) -> Seq<Seq<Seq<char>>> {
    m.map_values(|row: Vec<String>| row@.map_values(|c: String| c@))
}

fn digit_str(d: u64) -> (r: &'static str)
    requires
        d < 10,
    ensures
        r@ == seq![digit_char(d as nat)],
{
    let digits = "0123456789";
    proof {
        reveal_strlit("0123456789");
    }
    let r = digits.substring_char(d as usize, d as usize + 1);
    assert(r@ =~= seq![digit_char(d as nat)]);
    r
}

/// `n` written in decimal.
pub fn to_decimal(n: u64) -> (r: String)
    ensures
        r@ == decimal(n as nat),
    decreases n,
{
    if n < 10 {
        String::from_str(digit_str(n))
    } else {
        let mut s = to_decimal(n / 10);
        s.append(digit_str(n % 10));
        assert(s@ =~= decimal(n as nat));
        s
    }
}

proof fn lemma_col_width_bound(m: Seq<Seq<Seq<char>>>, r: int, j: int)
    requires
        0 <= r < m.len(),
    ensures
        cell_len(m[r], j) <= col_width(m, j),
    decreases m.len(),
{
    if r < m.len() - 1 {
        lemma_col_width_bound(m.drop_last(), r, j);
    }
}

fn column_width(m: &Vec<Vec<String>>, j: usize) -> (w: usize)
    ensures
        w == col_width(matrix_view(m@), j as int),
{
    let ghost mv = matrix_view(m@);
    let mut w: usize = 0;
    let mut r: usize = 0;
    while r < m.len()
        invariant
            r <= m@.len(),
            mv == matrix_view(m@),
            w == col_width(mv.subrange(0, r as int), j as int),
        decreases m.len() - r,
    {
        let row = &m[r];
        let c: usize = if j < row.len() {
            row[j].as_str().unicode_len()
        } else {
            0
        };
        assert(mv.subrange(0, r + 1).drop_last() =~= mv.subrange(0, r as int));
        assert(c == cell_len(mv[r as int], j as int));
        if c > w {
            w = c;
        }
        r = r + 1;
    }
    assert(mv.subrange(0, m@.len() as int) =~= mv);
    w
}

/// Appends `k` spaces.
fn push_spaces(s: &mut String, k: usize)
    ensures
        final(s)@ == old(s)@ + spaces(k as nat),
{
    let ghost start = s@;
    let mut i: usize = 0;
    while i < k
        invariant
            i <= k,
            s@ == start + spaces(i as nat),
        decreases k - i,
    {
        proof {
            reveal_strlit(" ");
        }
        s.append(" ");
        assert(s@ =~= start + spaces((i + 1) as nat));
        i = i + 1;
    }
}

/// The table of `m`, one line per row, columns padded to their widest cell
/// and separated by one space; the last cell of a line is not padded.
pub fn format_table(m: &Vec<Vec<String>>) -> (r: String)
    ensures
        r@ == table_text(matrix_view(m@)),
{
    let ghost mv = matrix_view(m@);
    let mut out = String::new();
    let mut r: usize = 0;
    while r < m.len()
        invariant
            r <= m@.len(),
            mv == matrix_view(m@),
            out@ + table_from(mv, r as int) == table_text(mv),
        decreases m.len() - r,
    {
        let row = &m[r];
        let ghost rv = mv[r as int];
        assert(rv == row@.map_values(|c: String| c@));
        let mut line = String::new();
        let mut j: usize = 0;
        while row.len() > 0 && j < row.len() - 1
            invariant
                j < row@.len() || (j == 0 && row@.len() == 0),
                rv == row@.map_values(|c: String| c@),
                mv == matrix_view(m@),
                r < m@.len(),
                rv == mv[r as int],
                line@ + line_from(mv, rv, j as int) == line_from(mv, rv, 0),
            decreases row.len() - j,
        {
            let cell = row[j].as_str();
            let len = cell.unicode_len();
            let w = column_width(m, j);
            proof {
                lemma_col_width_bound(mv, r as int, j as int);
            }
            let ghost before = line@;
            line.append(cell);
            push_spaces(&mut line, w - len);
            proof {
                reveal_strlit(" ");
            }
            line.append(" ");
            assert(cell@ == rv[j as int]);
            assert(line@ + line_from(mv, rv, j + 1) =~= before + line_from(mv, rv, j as int));
            j = j + 1;
        }
        let ghost before = line@;
        if j < row.len() {
            line.append(row[j].as_str());
        }
        proof {
            reveal_strlit("\n");
        }
        line.append("\n");
        assert(line@ =~= before + line_from(mv, rv, j as int));
        let ghost prev = out@;
        out.append(line.as_str());
        assert(out@ + table_from(mv, r + 1) =~= prev + table_from(mv, r as int));
        r = r + 1;
    }
    out
}

} // verus!
