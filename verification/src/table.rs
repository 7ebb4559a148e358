//! Table rendering: a distance matrix serialized as a wide (matrix-shaped)
//! or long ("melted") delimited byte table. Names are written byte for
//! byte; values as plain decimal integers; every line ends in a newline.

use crate::matrix::{mat_elems, mat_get, mat_width, Matrix};
use vstd::prelude::*;

verus! {

/// The newline byte ending every output line.
pub const NEWLINE: u8 = 10;

/// Decimal digits of `n`, most significant first; 48 is ASCII zero.
pub open spec fn decimal(n: nat) -> Seq<u8>
    decreases n,
{
    if n < 10 {
        seq![(48 + n) as u8]
    } else {
        decimal(n / 10).push((48 + n % 10) as u8)
    }
}

/// The decimal digits of a value.
pub fn u64_to_decimal(v: u64) -> (r: Vec<u8>)
    ensures
        r@ == decimal(v as nat),
{
    let mut out: Vec<u8> = Vec::new();
    let mut x: u64 = v;
    out.insert(0, 48 + (x % 10) as u8);
    x = x / 10;
    proof {
        if v < 10 {
            assert(out@ =~= decimal(v as nat));
        } else {
            assert(decimal(v as nat) =~= decimal(x as nat) + out@);
        }
    }
    while x > 0
        invariant
            x == 0 ==> out@ == decimal(v as nat),
            x > 0 ==> decimal(v as nat) == decimal(x as nat) + out@,
        decreases x,
    {
        let ghost out0 = out@;
        let ghost x0 = x as nat;
        out.insert(0, 48 + (x % 10) as u8);
        x = x / 10;
        proof {
            if x == 0 {
                assert(decimal(x0) =~= seq![(48 + x0 % 10) as u8]);
                assert(decimal(v as nat) =~= out@);
            } else {
                assert(decimal(x0) == decimal(x0 / 10).push((48 + x0 % 10) as u8));
                assert(decimal(x0) =~= decimal(x as nat) + seq![(48 + x0 % 10) as u8]);
                assert(decimal(v as nat) =~= decimal(x as nat) + out@);
            }
        }
    }
    out
}

/// Append a byte slice to a vector.
pub fn append_bytes(out: &mut Vec<u8>, b: &[u8])
    ensures
        final(out)@ == old(out)@ + b@,
{
    let mut i: usize = 0;
    while i < b.len()
        invariant
            i <= b@.len(),
            out@ == old(out)@ + b@.take(i as int),
        decreases b@.len() - i,
    {
        out.push(*vstd::slice::slice_index_get(b, i));
        proof {
            assert(old(out)@ + b@.take(i + 1 as int) =~= (old(out)@ + b@.take(i as int)).push(
                b@[i as int],
            ));
        }
        i = i + 1;
    }
    proof {
        assert(b@.take(b@.len() as int) =~= b@);
    }
}

/// The first `i` names joined by the delimiter.
pub open spec fn names_joined(names: Seq<Vec<u8>>, d: u8, i: int) -> Seq<u8>
    decreases i,
{
    if i <= 0 {
        Seq::empty()
    } else if i == 1 {
        names[0]@
    } else {
        names_joined(names, d, i - 1) + seq![d] + names[i - 1]@
    }
}

/// The first `j` cells of a row, each preceded by the delimiter.
pub open spec fn row_cells(row: Seq<u64>, d: u8, j: int) -> Seq<u8>
    decreases j,
{
    if j <= 0 {
        Seq::empty()
    } else {
        row_cells(row, d, j - 1) + seq![d] + decimal(row[j - 1] as nat)
    }
}

/// One wide-form body line: the row's name, its delimited cells, a newline.
pub open spec fn wide_line(m: Seq<Seq<u64>>, rows: Seq<Vec<u8>>, d: u8, r: int) -> Seq<u8> {
    rows[r]@ + row_cells(m[r], d, m[r].len() as int) + seq![NEWLINE]
}

/// The first `r` wide-form body lines.
pub open spec fn wide_lines(m: Seq<Seq<u64>>, rows: Seq<Vec<u8>>, d: u8, r: int) -> Seq<u8>
    decreases r,
{
    if r <= 0 {
        Seq::empty()
    } else {
        wide_lines(m, rows, d, r - 1) + wide_line(m, rows, d, r - 1)
    }
}

/// The whole wide-form table: a header line with an empty top-left cell and
/// the column names, then one line per row.
pub open spec fn wide_table(m: Seq<Seq<u64>>, cols: Seq<Vec<u8>>, rows: Seq<Vec<u8>>, d: u8) -> Seq<
    u8,
> {
    seq![d] + names_joined(cols, d, cols.len() as int) + seq![NEWLINE] + wide_lines(
        m,
        rows,
        d,
        rows.len() as int,
    )
}

/// One long-form line: column name, row name, the cell value, delimited.
pub open spec fn long_line(
    m: Seq<Seq<u64>>,
    cols: Seq<Vec<u8>>,
    rows: Seq<Vec<u8>>,
    d: u8,
    i: int,
    j: int,
) -> Seq<u8> {
    cols[i]@ + seq![d] + rows[j]@ + seq![d] + decimal(m[j][i] as nat) + seq![NEWLINE]
}

/// The first `j` long-form lines of column `i`.
pub open spec fn long_column(
    m: Seq<Seq<u64>>,
    cols: Seq<Vec<u8>>,
    rows: Seq<Vec<u8>>,
    d: u8,
    i: int,
    j: int,
) -> Seq<u8>
    decreases j,
{
    if j <= 0 {
        Seq::empty()
    } else {
        long_column(m, cols, rows, d, i, j - 1) + long_line(m, cols, rows, d, i, j - 1)
    }
}

/// The long-form lines of the first `i` columns, column-major: every row of
/// a column before any row of the next.
pub open spec fn long_columns(
    m: Seq<Seq<u64>>,
    cols: Seq<Vec<u8>>,
    rows: Seq<Vec<u8>>,
    d: u8,
    i: int,
) -> Seq<u8>
    decreases i,
{
    if i <= 0 {
        Seq::empty()
    } else {
        long_columns(m, cols, rows, d, i - 1) + long_column(
            m,
            cols,
            rows,
            d,
            i - 1,
            rows.len() as int,
        )
    }
}

/// The whole long-form table.
pub open spec fn long_table(m: Seq<Seq<u64>>, cols: Seq<Vec<u8>>, rows: Seq<Vec<u8>>, d: u8) -> Seq<
    u8,
> {
    long_columns(m, cols, rows, d, cols.len() as int)
}

/// Rendering a labeled matrix as delimited text.
pub trait ToTable {
    /// The matrix values this table holds, row by row.
    spec fn rows_view(&self) -> Seq<Seq<u64>>;

    /// The matrix's column count.
    spec fn width_view(&self) -> nat;

    /// Render the wide (matrix-shaped) form: a header line holding the
    /// delimiter and the column names, then each row's name and cells.
    fn to_csv(&self, delimiter: u8, column_names: &Vec<Vec<u8>>, row_names: &Vec<Vec<u8>>) -> (out:
        Vec<u8>)
        requires
            self.rows_view().len() == row_names@.len(),
            self.width_view() == column_names@.len(),
            forall|k: int|
                0 <= k < self.rows_view().len() ==> (#[trigger] self.rows_view()[k]).len()
                    == self.width_view(),
        ensures
            out@ == wide_table(self.rows_view(), column_names@, row_names@, delimiter),
    ;

    /// Render the long ("melted") form: one line per (column, row) pair, in
    /// column-major order.
    fn to_long(&self, delimiter: u8, column_names: &Vec<Vec<u8>>, row_names: &Vec<Vec<u8>>) -> (out:
        Vec<u8>)
        requires
            self.rows_view().len() == row_names@.len(),
            self.width_view() == column_names@.len(),
            forall|k: int|
                0 <= k < self.rows_view().len() ==> (#[trigger] self.rows_view()[k]).len()
                    == self.width_view(),
        ensures
            out@ == long_table(self.rows_view(), column_names@, row_names@, delimiter),
    ;
}

impl ToTable for Matrix {
    open spec fn rows_view(&self) -> Seq<Seq<u64>> {
        mat_elems(*self)
    }

    open spec fn width_view(&self) -> nat {
        mat_width(*self)
    }

    fn to_csv(&self, delimiter: u8, column_names: &Vec<Vec<u8>>, row_names: &Vec<Vec<u8>>) -> (out:
        Vec<u8>) {
        let ghost m = mat_elems(*self);
        let d = delimiter;
        let mut out: Vec<u8> = Vec::new();
        out.push(d);
        let mut i: usize = 0;
        while i < column_names.len()
            invariant
                i <= column_names@.len(),
                out@ == seq![d] + names_joined(column_names@, d, i as int),
            decreases column_names@.len() - i,
        {
            let ghost out0 = out@;
            if i > 0 {
                out.push(d);
            }
            append_bytes(&mut out, column_names[i].as_slice());
            proof {
                if i == 0 {
                    assert(out@ =~= seq![d] + names_joined(column_names@, d, 1));
                } else {
                    assert(out@ =~= seq![d] + (names_joined(column_names@, d, i as int) + seq![d]
                        + column_names@[i as int]@));
                }
            }
            i = i + 1;
        }
        out.push(NEWLINE);
        let ghost header = out@;
        proof {
            assert(header =~= seq![d] + names_joined(column_names@, d, column_names@.len() as int)
                + seq![NEWLINE]);
            assert(wide_lines(m, row_names@, d, 0) =~= Seq::<u8>::empty());
            assert(out@ =~= header + wide_lines(m, row_names@, d, 0));
        }
        let mut r: usize = 0;
        while r < row_names.len()
            invariant
                r <= row_names@.len(),
                m == mat_elems(*self),
                m.len() == row_names@.len(),
                mat_width(*self) == column_names@.len(),
                forall|k: int| 0 <= k < m.len() ==> (#[trigger] m[k]).len() == mat_width(*self),
                out@ == header + wide_lines(m, row_names@, d, r as int),
            decreases row_names@.len() - r,
        {
            let ghost line_start = out@;
            append_bytes(&mut out, row_names[r].as_slice());
            let mut j: usize = 0;
            while j < column_names.len()
                invariant
                    j <= column_names@.len(),
                    r < row_names@.len(),
                    m == mat_elems(*self),
                    m.len() == row_names@.len(),
                    mat_width(*self) == column_names@.len(),
                    forall|k: int| 0 <= k < m.len() ==> (#[trigger] m[k]).len() == mat_width(*self),
                    out@ == line_start + row_names@[r as int]@ + row_cells(
                        m[r as int],
                        d,
                        j as int,
                    ),
                decreases column_names@.len() - j,
            {
                let ghost cells0 = row_cells(m[r as int], d, j as int);
                out.push(d);
                let cell = u64_to_decimal(mat_get(self, r, j));
                append_bytes(&mut out, cell.as_slice());
                proof {
                    assert(out@ =~= line_start + row_names@[r as int]@ + (cells0 + seq![d]
                        + decimal(m[r as int][j as int] as nat)));
                }
                j = j + 1;
            }
            out.push(NEWLINE);
            proof {
                assert(out@ =~= line_start + wide_line(m, row_names@, d, r as int));
                assert(out@ =~= header + wide_lines(m, row_names@, d, r + 1 as int));
            }
            r = r + 1;
        }
        proof {
            assert(out@ =~= wide_table(m, column_names@, row_names@, d));
        }
        out
    }

    fn to_long(&self, delimiter: u8, column_names: &Vec<Vec<u8>>, row_names: &Vec<Vec<u8>>) -> (out:
        Vec<u8>) {
        let ghost m = mat_elems(*self);
        let d = delimiter;
        let mut out: Vec<u8> = Vec::new();
        let mut i: usize = 0;
        while i < column_names.len()
            invariant
                i <= column_names@.len(),
                m == mat_elems(*self),
                m.len() == row_names@.len(),
                mat_width(*self) == column_names@.len(),
                forall|k: int| 0 <= k < m.len() ==> (#[trigger] m[k]).len() == mat_width(*self),
                out@ == long_columns(m, column_names@, row_names@, d, i as int),
            decreases column_names@.len() - i,
        {
            let ghost col_start = out@;
            let mut j: usize = 0;
            while j < row_names.len()
                invariant
                    j <= row_names@.len(),
                    i < column_names@.len(),
                    m == mat_elems(*self),
                    m.len() == row_names@.len(),
                    mat_width(*self) == column_names@.len(),
                    forall|k: int| 0 <= k < m.len() ==> (#[trigger] m[k]).len() == mat_width(*self),
                    out@ == col_start + long_column(
                        m,
                        column_names@,
                        row_names@,
                        d,
                        i as int,
                        j as int,
                    ),
                decreases row_names@.len() - j,
            {
                let ghost lines0 = long_column(m, column_names@, row_names@, d, i as int, j as int);
                append_bytes(&mut out, column_names[i].as_slice());
                out.push(d);
                append_bytes(&mut out, row_names[j].as_slice());
                out.push(d);
                let cell = u64_to_decimal(mat_get(self, j, i));
                append_bytes(&mut out, cell.as_slice());
                out.push(NEWLINE);
                proof {
                    assert(out@ =~= col_start + (lines0 + long_line(
                        m,
                        column_names@,
                        row_names@,
                        d,
                        i as int,
                        j as int,
                    )));
                }
                j = j + 1;
            }
            proof {
                assert(out@ =~= long_columns(m, column_names@, row_names@, d, i + 1 as int));
            }
            i = i + 1;
        }
        out
    }
}

} // verus!
