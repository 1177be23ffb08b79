//! The table splitter: a captured table region splits into a header row and
//! body rows (skipping the alignment line right after the header), and a row
//! splits into cells on `|`.

use vstd::prelude::*;
use vstd::string::StrSliceExecFns;

use crate::elements::{ParseDiagnostic, RawText, Table, TableRow};
use crate::text::{find_char_from, find_from, lemma_find_from};

verus! {

/// The lines of `s` from `pos` on, split on `\n`; a trailing newline does
/// not produce a final empty line.
pub open spec fn split_lines_from(s: Seq<char>, pos: int) -> Seq<Seq<char>>
    decreases s.len() - pos,
    via split_lines_from_decreases
{
    if pos < 0 || pos >= s.len() {
        Seq::empty()
    } else {
        let e = find_from(s, pos, '\n');
        if e >= s.len() {
            seq![s.subrange(pos, s.len() as int)]
        } else {
            seq![s.subrange(pos, e)] + split_lines_from(s, e + 1)
        }
    }
}

#[via_fn]
proof fn split_lines_from_decreases(s: Seq<char>, pos: int) {
    if 0 <= pos < s.len() {
        lemma_find_from(s, pos, '\n');
    }
}

/// The lines of a region.
pub open spec fn split_lines(s: Seq<char>) -> Seq<Seq<char>> {
    split_lines_from(s, 0)
}

/// The rows of a table region: the first line is the header, the second is
/// the separator/alignment line and is skipped, the rest are body rows.
pub open spec fn table_rows(region: Seq<char>) -> Seq<Seq<char>> {
    let l = split_lines(region);
    if l.len() >= 2 {
        seq![l[0]] + l.subrange(2, l.len() as int)
    } else {
        seq![l[0]]
    }
}

/// `row` without one leading and one trailing `|`.
pub open spec fn strip_pipes(row: Seq<char>) -> Seq<char> {
    let a = if row.len() > 0 && row[0] == '|' {
        row.subrange(1, row.len() as int)
    } else {
        row
    };
    if a.len() > 0 && a[a.len() - 1] == '|' {
        a.subrange(0, a.len() - 1)
    } else {
        a
    }
}

/// The pieces of `s` from `pos` on, split on `|`, empty pieces kept.
pub open spec fn split_cells_from(s: Seq<char>, pos: int) -> Seq<Seq<char>>
    decreases s.len() - pos + 1,
    via split_cells_from_decreases
{
    if pos < 0 || pos > s.len() {
        Seq::empty()
    } else {
        let e = find_from(s, pos, '|');
        if e >= s.len() {
            seq![s.subrange(pos, s.len() as int)]
        } else {
            seq![s.subrange(pos, e)] + split_cells_from(s, e + 1)
        }
    }
}

#[via_fn]
proof fn split_cells_from_decreases(s: Seq<char>, pos: int) {
    if 0 <= pos <= s.len() {
        lemma_find_from(s, pos, '|');
    }
}

/// The cells of one row: the row without its outer pipes, split on `|`.
pub open spec fn row_cells(row: Seq<char>) -> Seq<Seq<char>> {
    split_cells_from(strip_pipes(row), 0)
}

/// The character sequences of a list of rows.
pub open spec fn rows_view<'a>(v: Seq<TableRow<'a>>) -> Seq<Seq<char>> {
    v.map_values(|r: TableRow<'a>| r@)
}

/// The character sequences of a list of cells.
pub open spec fn cells_view<'a>(v: Seq<RawText<'a>>) -> Seq<Seq<char>> {
    v.map_values(|c: RawText<'a>| c@)
}

impl<'a> Table<'a> {
    /// The rows of this table region: the header row first, then the body
    /// rows, with the alignment line after the header skipped.  A region
    /// without a single line has no header and is reported as such.
    pub fn rows(&self) -> (r: Result<Vec<TableRow<'a>>, ParseDiagnostic>)
        ensures
            match r {
                Ok(rows) => split_lines(self@).len() > 0 && rows_view(rows@)
                    == table_rows(self@),
                Err(d) => d == ParseDiagnostic::EmptyTableRegion && split_lines(self@).len()
                    == 0,
            },
    {
        let region = self.0;
        let n = region.unicode_len();
        let ghost s = region@;
        let mut lines: Vec<&'a str> = Vec::new();
        let mut pos: usize = 0;
        while pos < n
            invariant
                0 <= pos <= n,
                n == s.len(),
                region@ == s,
                lines@.map_values(|l: &str| l@) + split_lines_from(s, pos as int)
                    == split_lines(s),
            decreases n - pos,
        {
            proof {
                lemma_find_from(s, pos as int, '\n');
            }
            let e = find_char_from(region, n, pos, '\n');
            if e >= n {
                lines.push(region.substring_char(pos, n));
                proof {
                    assert(lines@.map_values(|l: &str| l@)
                        + split_lines_from(s, n as int) =~= split_lines(s));
                }
                pos = n;
            } else {
                lines.push(region.substring_char(pos, e));
                proof {
                    assert(lines@.map_values(|l: &str| l@)
                        + split_lines_from(s, e + 1) =~= split_lines(s));
                }
                pos = e + 1;
            }
        }
        proof {
            assert(lines@.map_values(|l: &str| l@) =~= split_lines(s));
        }
        if lines.len() == 0 {
            return Err(ParseDiagnostic::EmptyTableRegion);
        }
        let mut rows: Vec<TableRow<'a>> = Vec::new();
        proof {
            assert(lines@.map_values(|l: &str| l@)[0] == split_lines(s)[0]);
        }
        rows.push(TableRow(lines[0]));
        proof {
            assert(rows_view(rows@) =~= seq![split_lines(s)[0]]);
            if split_lines(s).len() >= 2 {
                assert(rows_view(rows@) =~= seq![split_lines(s)[0]]
                    + split_lines(s).subrange(2, 2));
            }
        }
        let mut i: usize = 2;
        while i < lines.len()
            invariant
                i >= 2,
                lines@.map_values(|l: &str| l@) == split_lines(s),
                lines@.len() > 0,
                lines@.len() >= 2 ==> i <= lines@.len(),
                lines@.len() >= 2 ==> rows_view(rows@) == seq![split_lines(s)[0]]
                    + split_lines(s).subrange(2, i as int),
                lines@.len() < 2 ==> rows_view(rows@) == seq![split_lines(s)[0]],
            decreases lines.len() - i,
        {
            proof {
                assert(lines@.map_values(|l: &str| l@)[i as int] == split_lines(s)[i as int]);
            }
            let ghost prev = rows@;
            rows.push(TableRow(lines[i]));
            proof {
                assert(rows_view(rows@) =~= rows_view(prev).push(lines@[i as int]@));
                assert(rows_view(rows@) =~= seq![split_lines(s)[0]]
                    + split_lines(s).subrange(2, i + 1));
            }
            i = i + 1;
        }
        proof {
            assert(rows_view(rows@) =~= table_rows(s));
        }
        Ok(rows)
    }
}

impl<'a> TableRow<'a> {
    /// The cells of this row: the text between the outer pipes, split on
    /// `|`; empty cells are kept.
    pub fn cells(&self) -> (r: Vec<RawText<'a>>)
        ensures
            cells_view(r@) == row_cells(self@),
    {
        let row = self.0;
        let n = row.unicode_len();
        let a: usize = if n > 0 && row.get_char(0) == '|' {
            1
        } else {
            0
        };
        let b: usize = if n > a && row.get_char(n - 1) == '|' {
            n - 1
        } else {
            n
        };
        let inner = row.substring_char(a, b);
        proof {
            assert(inner@ =~= strip_pipes(row@));
        }
        let m = inner.unicode_len();
        let ghost s = inner@;
        let mut cells: Vec<RawText<'a>> = Vec::new();
        let mut pos: usize = 0;
        loop
            invariant_except_break
                cells_view(cells@) + split_cells_from(s, pos as int) == split_cells_from(
                    s,
                    0,
                ),
            invariant
                0 <= pos <= m,
                m == s.len(),
                inner@ == s,
            ensures
                cells_view(cells@) == split_cells_from(s, 0),
            decreases m - pos + 1,
        {
            proof {
                lemma_find_from(s, pos as int, '|');
            }
            let e = find_char_from(inner, m, pos, '|');
            if e >= m {
                cells.push(RawText(inner.substring_char(pos, m)));
                proof {
                    assert(split_cells_from(s, m + 1) =~= Seq::<Seq<char>>::empty());
                    assert(cells_view(cells@) =~= split_cells_from(s, 0));
                }
                break;
            } else {
                cells.push(RawText(inner.substring_char(pos, e)));
                proof {
                    assert(cells_view(cells@) + split_cells_from(s, e + 1)
                        =~= split_cells_from(s, 0));
                }
                pos = e + 1;
            }
        }
        proof {
            assert(cells_view(cells@) =~= row_cells(self@));
        }
        cells
    }
}

} // verus!
