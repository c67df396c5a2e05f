//! Text grids behind tables and matrices: ragged rows padded to a
//! rectangle, header and label rows, the rules drawn between cells, and
//! the Typst source of a matrix.
use vstd::prelude::*;

use crate::errors::TypstError;
use crate::tex_parts::views;

verus! {

/// The chars of every cell, row by row.
pub open spec fn rows_view(rows: Seq<Vec<String>>) -> Seq<Seq<Seq<char>>> {
    rows.map_values(|r: Vec<String>| views(r@))
}

/// Length of the longest row (0 when there are no rows).
pub open spec fn widest(rows: Seq<Seq<Seq<char>>>) -> nat
    decreases rows.len(),
{
    if rows.len() == 0 {
        0
    } else {
        let w = widest(rows.drop_last());
        if rows.last().len() > w {
            rows.last().len()
        } else {
            w
        }
    }
}

/// Column `c` of a row: the cell's text, or `filler` where the row is
/// shorter or the cell is empty.
pub open spec fn cell_or(row: Seq<Seq<char>>, c: int, filler: Seq<char>) -> Seq<char> {
    if c < row.len() && row[c].len() > 0 {
        row[c]
    } else {
        filler
    }
}

/// Every row padded to the widest one, blanks replaced by `filler`.
pub open spec fn padded(rows: Seq<Seq<Seq<char>>>, filler: Seq<char>) -> Seq<Seq<Seq<char>>> {
    rows.map_values(|r: Seq<Seq<char>>| Seq::new(widest(rows), |c: int| cell_or(r, c, filler)))
}

/// Length of the longest row.
pub fn widest_row(cells: &[Vec<String>]) -> (w: usize)
    ensures
        w == widest(rows_view(cells@)),
{
    let mut w: usize = 0;
    let mut i: usize = 0;
    while i < cells.len()
        invariant
            i <= cells.len(),
            w == widest(rows_view(cells@.take(i as int))),
        decreases cells.len() - i,
    {
        proof {
            assert(rows_view(cells@.take(i + 1)).drop_last() =~= rows_view(cells@.take(i as int)));
        }
        if cells[i].len() > w {
            w = cells[i].len();
        }
        i = i + 1;
    }
    proof {
        assert(cells@.take(cells@.len() as int) =~= cells@);
    }
    w
}

/// One row padded to `w` columns.
fn padded_row(row: &Vec<String>, w: usize, filler: &str) -> (r: Vec<String>)
    ensures
        views(r@) == Seq::new(w as nat, |c: int| cell_or(views(row@), c, filler@)),
{
    let mut out: Vec<String> = Vec::new();
    let mut c: usize = 0;
    while c < w
        invariant
            c <= w,
            out@.len() == c,
            forall|j: int| 0 <= j < c ==> #[trigger] out@[j]@ == cell_or(views(row@), j, filler@),
        decreases w - c,
    {
        if c < row.len() && !row[c].as_str().is_empty() {
            out.push(row[c].clone());
        } else {
            out.push(filler.to_string());
        }
        c = c + 1;
    }
    proof {
        assert(views(out@) =~= Seq::new(w as nat, |c: int| cell_or(views(row@), c, filler@)));
    }
    out
}

/// The grid of cell texts that a table lays out, row by row: each row
/// padded to the widest one, missing and empty cells given `filler`.
/// A table with no cells at all is refused.
pub fn table_grid(cells: &[Vec<String>], filler: &str) -> (r: Result<Vec<Vec<String>>, TypstError>)
    ensures
        match r {
            Ok(g) => widest(rows_view(cells@)) > 0 && rows_view(g@) == padded(
                rows_view(cells@),
                filler@,
            ),
            Err(TypstError::Compile(m)) => widest(rows_view(cells@)) == 0 && m@ == "empty table"@,
            Err(_) => false,
        },
{
    let w = widest_row(cells);
    if w == 0 {
        return Err(TypstError::Compile("empty table".to_string()));
    }
    let ghost rows = rows_view(cells@);
    let mut out: Vec<Vec<String>> = Vec::new();
    let mut i: usize = 0;
    while i < cells.len()
        invariant
            i <= cells.len(),
            w == widest(rows),
            rows == rows_view(cells@),
            out@.len() == i,
            forall|k: int| 0 <= k < i ==> #[trigger] views(out@[k]@) == padded(rows, filler@)[k],
        decreases cells.len() - i,
    {
        let line = padded_row(&cells[i], w, filler);
        out.push(line);
        i = i + 1;
    }
    proof {
        assert(rows_view(out@) =~= padded(rows, filler@));
    }
    Ok(out)
}

/// Entry `i` of a label list, or a single space past its end.
pub open spec fn label_or_blank(labels: Seq<Seq<char>>, i: int) -> Seq<char> {
    if 0 <= i < labels.len() {
        labels[i]
    } else {
        " "@
    }
}

/// The header row: the corner cell (when there are row labels; `"·"`
/// stands in for an empty corner) and one column label per data column.
pub open spec fn header_row(
    col_labels: Seq<Seq<char>>,
    with_corner: bool,
    top_left: Seq<char>,
    w: nat,
) -> Seq<Seq<char>> {
    let corner = if top_left.len() == 0 {
        "·"@
    } else {
        top_left
    };
    let heads = Seq::new(w, |c: int| label_or_blank(col_labels, c));
    if with_corner {
        seq![corner] + heads
    } else {
        heads
    }
}

/// Data row `i`: its row label (when there are row labels) and its cells,
/// padded with single spaces to `w` columns.
pub open spec fn body_row(
    row: Seq<Seq<char>>,
    row_labels: Seq<Seq<char>>,
    i: int,
    w: nat,
) -> Seq<Seq<char>> {
    let data = Seq::new(w, |c: int| label_or_blank(row, c));
    if row_labels.len() > 0 {
        seq![label_or_blank(row_labels, i)] + data
    } else {
        data
    }
}

/// The grid of a labeled table: a header row when there are column labels,
/// then every data row behind its row label.
pub open spec fn labeled(
    rows: Seq<Seq<Seq<char>>>,
    row_labels: Seq<Seq<char>>,
    col_labels: Seq<Seq<char>>,
    top_left: Seq<char>,
) -> Seq<Seq<Seq<char>>> {
    let w = widest(rows);
    let body = Seq::new(rows.len(), |i: int| body_row(rows[i], row_labels, i, w));
    if col_labels.len() > 0 {
        seq![header_row(col_labels, row_labels.len() > 0, top_left, w)] + body
    } else {
        body
    }
}

/// Entry `i` of a list, or a single space past its end.
fn get_or_blank(v: &[String], i: usize) -> (r: String)
    ensures
        r@ == label_or_blank(views(v@), i as int),
{
    if i < v.len() {
        v[i].clone()
    } else {
        " ".to_string()
    }
}

/// Padded copy of `v` of length `w`, led by `lead` when it is given.
fn padded_labels(lead: Option<String>, v: &[String], w: usize) -> (r: Vec<String>)
    ensures
        views(r@) == match lead {
            Some(l) => seq![l@] + Seq::new(w as nat, |c: int| label_or_blank(views(v@), c)),
            None => Seq::new(w as nat, |c: int| label_or_blank(views(v@), c)),
        },
{
    let ghost lv: Option<Seq<char>> = match lead {
        Some(ref l) => Some(l@),
        None => None,
    };
    let mut out: Vec<String> = Vec::new();
    let k: usize = match lead {
        Some(l) => {
            out.push(l);
            1
        },
        None => 0,
    };
    let ghost base = out@;
    let ghost head: Seq<Seq<char>> = match lv {
        Some(l) => seq![l],
        None => Seq::empty(),
    };
    assert(views(base) =~= head);
    let mut c: usize = 0;
    while c < w
        invariant
            c <= w,
            out@.len() == k + c,
            k == head.len(),
            views(out@.take(k as int)) == head,
            forall|j: int| 0 <= j < c ==> #[trigger] out@[k + j]@ == label_or_blank(views(v@), j),
        decreases w - c,
    {
        let s = get_or_blank(v, c);
        let ghost prev = out@;
        out.push(s);
        proof {
            assert(out@.take(k as int) =~= prev.take(k as int));
            assert forall|j: int| 0 <= j < c + 1 implies #[trigger] out@[k + j]@ == label_or_blank(
                views(v@),
                j,
            ) by {
                if j < c {
                    assert(out@[k + j] == prev[k + j]);
                }
            }
        }
        c = c + 1;
    }
    proof {
        let tail = Seq::new(w as nat, |c: int| label_or_blank(views(v@), c));
        assert forall|i: int| 0 <= i < out@.len() implies #[trigger] views(out@)[i] == (head
            + tail)[i] by {
            if i < k {
                assert(views(out@.take(k as int))[i] == views(out@)[i]);
            } else {
                let j = i - k;
                assert(out@[k + j]@ == label_or_blank(views(v@), j));
            }
        }
        assert(views(out@) =~= head + tail);
    }
    out
}

/// The grid of a table with row and column labels: a header row (the
/// corner, `"·"` when `top_left` is empty, then one column label per data
/// column) when there are column labels, then each data row behind its
/// row label when there are row labels. Missing labels and cells become a
/// single space. A table with no cells at all is refused.
pub fn labeled_grid(
    cells: &[Vec<String>],
    row_labels: &[String],
    col_labels: &[String],
    top_left: &str,
) -> (r: Result<Vec<Vec<String>>, TypstError>)
    ensures
        match r {
            Ok(g) => widest(rows_view(cells@)) > 0 && rows_view(g@) == labeled(
                rows_view(cells@),
                views(row_labels@),
                views(col_labels@),
                top_left@,
            ),
            Err(TypstError::Compile(m)) => widest(rows_view(cells@)) == 0 && m@ == "empty table"@,
            Err(_) => false,
        },
{
    let w = widest_row(cells);
    if w == 0 {
        return Err(TypstError::Compile("empty table".to_string()));
    }
    let ghost rows = rows_view(cells@);
    let ghost want = labeled(rows, views(row_labels@), views(col_labels@), top_left@);
    let has_row = row_labels.len() > 0;
    let mut out: Vec<Vec<String>> = Vec::new();
    let h: usize = if col_labels.len() > 0 {
        let corner = if has_row {
            if top_left.is_empty() {
                Some("·".to_string())
            } else {
                Some(top_left.to_string())
            }
        } else {
            None
        };
        proof {
            reveal_strlit("·");
        }
        let header = padded_labels(corner, col_labels, w);
        out.push(header);
        1
    } else {
        0
    };
    assert(out@.len() == h);
    assert(forall|k: int| 0 <= k < h ==> #[trigger] views(out@[k]@) == want[k]);
    let mut i: usize = 0;
    while i < cells.len()
        invariant
            i <= cells.len(),
            w == widest(rows),
            rows == rows_view(cells@),
            want == labeled(rows, views(row_labels@), views(col_labels@), top_left@),
            has_row == (row_labels@.len() > 0),
            h == (if col_labels@.len() > 0 { 1int } else { 0int }),
            out@.len() == h + i,
            forall|k: int| 0 <= k < h + i ==> #[trigger] views(out@[k]@) == want[k],
        decreases cells.len() - i,
    {
        let lead = if has_row {
            Some(get_or_blank(row_labels, i))
        } else {
            None
        };
        let line = padded_labels(lead, &cells[i], w);
        proof {
            assert(views(cells@[i as int]@) == rows[i as int]);
            assert(views(line@) =~= want[h + i]);
        }
        out.push(line);
        i = i + 1;
    }
    proof {
        assert(rows_view(out@) =~= want);
    }
    Ok(out)
}

/// Items joined with `sep` between neighbours.
pub open spec fn joined(items: Seq<Seq<char>>, sep: Seq<char>) -> Seq<char>
    decreases items.len(),
{
    if items.len() == 0 {
        Seq::empty()
    } else if items.len() == 1 {
        items[0]
    } else {
        joined(items.drop_last(), sep) + sep + items.last()
    }
}

/// Typst math source of a matrix whose entries are already written out:
/// `mat(a, b; c, d)`.
pub open spec fn matrix_math(rows: Seq<Seq<Seq<char>>>) -> Seq<char> {
    "mat("@ + joined(rows.map_values(|r: Seq<Seq<char>>| joined(r, ", "@)), "; "@) + ")"@
}

/// Whether some row has no entries.
pub open spec fn has_empty_row(rows: Seq<Seq<Seq<char>>>) -> bool {
    exists|i: int| 0 <= i < rows.len() && #[trigger] rows[i].len() == 0
}

/// Appends `items` joined with `sep`.
fn push_joined(out: &mut Vec<char>, items: &[String], sep: &str)
    ensures
        final(out)@ == old(out)@ + joined(views(items@), sep@),
{
    let ghost start = out@;
    let ghost all = views(items@);
    let sepv = crate::text::str_chars(sep);
    let mut i: usize = 0;
    while i < items.len()
        invariant
            i <= items.len(),
            all == views(items@),
            sepv@ == sep@,
            out@ == start + joined(all.take(i as int), sep@),
        decreases items.len() - i,
    {
        let item = crate::text::str_chars(items[i].as_str());
        proof {
            assert(all.take(i + 1).drop_last() =~= all.take(i as int));
            assert(all.take(i + 1).last() == all[i as int]);
        }
        if i > 0 {
            crate::text::extend_all(out, &sepv);
        } else {
            assert(all.take(1) =~= seq![all[0]]);
            assert(all.take(0) =~= Seq::<Seq<char>>::empty());
        }
        crate::text::extend_all(out, &item);
        proof {
            if i > 0 {
                assert(out@ =~= start + joined(all.take(i + 1), sep@));
            } else {
                assert(out@ =~= start + joined(all.take(1), sep@));
            }
        }
        i = i + 1;
    }
    proof {
        assert(all.take(items@.len() as int) =~= all);
    }
}

/// The Typst math source of a matrix, `mat(a, b; c, d)`, from its entries
/// already written as text. A matrix with no rows, or with an empty row,
/// is refused.
pub fn matrix_source(rows: &[Vec<String>]) -> (r: Result<String, TypstError>)
    ensures
        match r {
            Ok(s) => rows@.len() > 0 && !has_empty_row(rows_view(rows@)) && s@ == matrix_math(
                rows_view(rows@),
            ),
            Err(TypstError::Compile(m)) => (rows@.len() == 0 || has_empty_row(rows_view(rows@)))
                && m@ == "empty matrix"@,
            Err(_) => false,
        },
{
    let ghost all = rows_view(rows@);
    if rows.len() == 0 {
        return Err(TypstError::Compile("empty matrix".to_string()));
    }
    let mut j: usize = 0;
    while j < rows.len()
        invariant
            j <= rows.len(),
            all == rows_view(rows@),
            forall|k: int| 0 <= k < j ==> #[trigger] all[k].len() > 0,
        decreases rows.len() - j,
    {
        if rows[j].len() == 0 {
            assert(all[j as int].len() == 0);
            return Err(TypstError::Compile("empty matrix".to_string()));
        }
        j = j + 1;
    }
    let ghost lines = all.map_values(|r: Seq<Seq<char>>| joined(r, ", "@));
    let mut out = crate::text::str_chars("mat(");
    let ghost start = out@;
    let mut i: usize = 0;
    while i < rows.len()
        invariant
            i <= rows.len(),
            all == rows_view(rows@),
            lines == all.map_values(|r: Seq<Seq<char>>| joined(r, ", "@)),
            start == "mat("@,
            out@ == start + joined(lines.take(i as int), "; "@),
        decreases rows.len() - i,
    {
        proof {
            assert(lines.take(i + 1).drop_last() =~= lines.take(i as int));
            assert(lines.take(i + 1).last() == lines[i as int]);
            assert(views(rows@[i as int]@) == all[i as int]);
        }
        if i > 0 {
            crate::text::extend_all(&mut out, &crate::text::str_chars("; "));
        } else {
            assert(lines.take(1) =~= seq![lines[0]]);
        }
        let ghost before = out@;
        push_joined(&mut out, rows[i].as_slice(), ", ");
        proof {
            if i > 0 {
                assert(out@ =~= start + joined(lines.take(i + 1), "; "@));
            } else {
                assert(lines.take(0) =~= Seq::<Seq<char>>::empty());
                assert(out@ =~= start + joined(lines.take(1), "; "@));
            }
        }
        i = i + 1;
    }
    crate::text::extend_all(&mut out, &crate::text::str_chars(")"));
    proof {
        assert(lines.take(rows@.len() as int) =~= lines);
        assert(!has_empty_row(all));
    }
    Ok(crate::text::string_from(&out))
}

/// A rule drawn over a table: the four outer edges, or the line between
/// row `k` and row `k + 1` (column `k` and column `k + 1`).
#[derive(Clone, Copy, Debug, PartialEq, Eq, Structural)]
pub enum Rule {
    Top,
    Bottom,
    Left,
    Right,
    AfterRow(usize),
    AfterCol(usize),
}

/// The rules of a `rows` by `cols` grid of `n_cells` cells, in drawing
/// order: the outer frame (top, bottom, left, right), then the inner
/// horizontal rules, then the inner vertical ones.
pub open spec fn rules(rows: nat, cols: nat, n_cells: nat, inner: bool, outer: bool) -> Seq<Rule> {
    if rows == 0 || cols == 0 || n_cells == 0 {
        Seq::empty()
    } else {
        let frame = if outer {
            seq![Rule::Top, Rule::Bottom, Rule::Left, Rule::Right]
        } else {
            Seq::empty()
        };
        let between = if inner {
            Seq::new((rows - 1) as nat, |k: int| Rule::AfterRow(k as usize)) + Seq::new(
                (cols - 1) as nat,
                |k: int| Rule::AfterCol(k as usize),
            )
        } else {
            Seq::empty()
        };
        frame + between
    }
}

/// The rules to draw over a table grid, in the order they are drawn.
pub fn rule_plan(rows: usize, cols: usize, n_cells: usize, inner: bool, outer: bool) -> (r: Vec<Rule>)
    ensures
        r@ == rules(rows as nat, cols as nat, n_cells as nat, inner, outer),
{
    let mut out: Vec<Rule> = Vec::new();
    if rows == 0 || cols == 0 || n_cells == 0 {
        assert(out@ =~= rules(rows as nat, cols as nat, n_cells as nat, inner, outer));
        return out;
    }
    if outer {
        out.push(Rule::Top);
        out.push(Rule::Bottom);
        out.push(Rule::Left);
        out.push(Rule::Right);
    }
    let ghost frame = out@;
    if inner {
        let mut k: usize = 0;
        while k + 1 < rows
            invariant
                k < rows,
                out@ == frame + Seq::new(k as nat, |j: int| Rule::AfterRow(j as usize)),
            decreases rows - k,
        {
            out.push(Rule::AfterRow(k));
            proof {
                assert(out@ =~= frame + Seq::new((k + 1) as nat, |j: int| Rule::AfterRow(j as usize)));
            }
            k = k + 1;
        }
        let ghost mid = out@;
        let mut k: usize = 0;
        while k + 1 < cols
            invariant
                k < cols,
                out@ == mid + Seq::new(k as nat, |j: int| Rule::AfterCol(j as usize)),
            decreases cols - k,
        {
            out.push(Rule::AfterCol(k));
            proof {
                assert(out@ =~= mid + Seq::new((k + 1) as nat, |j: int| Rule::AfterCol(j as usize)));
            }
            k = k + 1;
        }
    }
    proof {
        assert(out@ =~= rules(rows as nat, cols as nat, n_cells as nat, inner, outer));
    }
    out
}

} // verus!
