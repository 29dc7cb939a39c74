//! Building tables from the text found in the cells of a ruled grid.
//!
//! The geometry layer finds the grid, places each fragment in a cell by its
//! centre, and arranges the fragments of a cell into visual lines; this
//! module turns that arrangement into cell texts and table rows.
use vstd::prelude::*;
use crate::lines::{gap_at, TextFragment};
use crate::text::{chars_of, string_of, trim, trim_chars};

verus! {

broadcast use vstd::string::group_string_axioms;

#[derive(Debug, Clone)]
pub struct TableCell {
    pub text: String,
    pub is_bold: bool,
    pub is_italic: bool,
    pub is_underlined: bool,
    pub col_span: usize,
    pub row_span: usize,
}

#[derive(Debug, Clone)]
pub struct TableRow {
    pub cells: Vec<TableCell>,
}

#[derive(Debug, Clone)]
pub struct Table {
    pub rows: Vec<TableRow>,
    pub col_count: usize,
}

/// One visual line of a cell, fragments left to right. `wide_gaps[i]` tells
/// whether the gap between fragments `i - 1` and `i` exceeds 0.3 times the
/// larger of their font sizes.
#[derive(Debug, Clone)]
pub struct CellLine {
    pub fragments: Vec<TextFragment>,
    pub wide_gaps: Vec<bool>,
}

/// The fragments of one cell, arranged in visual lines from top to bottom.
#[derive(Debug, Clone)]
pub struct CellContent {
    pub lines: Vec<CellLine>,
}

/// The first `n` fragment texts of a cell line, with a space before a text
/// after a wide gap unless the text so far ends with a space or the new text
/// starts with one.
pub open spec fn cell_line_prefix(frags: Seq<TextFragment>, gaps: Seq<bool>, n: int) -> Seq<char>
    decreases n,
{
    if n <= 0 {
        Seq::empty()
    } else {
        let acc = cell_line_prefix(frags, gaps, n - 1);
        let t = frags[n - 1].text@;
        if n - 1 > 0 && gap_at(gaps, n - 1) && !(acc.len() > 0 && acc.last() == ' ') && !(t.len()
            > 0 && t[0] == ' ') {
            acc + seq![' '] + t
        } else {
            acc + t
        }
    }
}

/// The text of a cell line, trimmed.
pub open spec fn cell_line_text(l: CellLine) -> Seq<char> {
    trim(cell_line_prefix(l.fragments@, l.wide_gaps@, l.fragments@.len() as int))
}

/// The non-empty texts of the first `n` lines, joined with single spaces.
pub open spec fn cell_lines_joined(lines: Seq<CellLine>, n: int) -> Seq<char>
    decreases n,
{
    if n <= 0 {
        Seq::empty()
    } else {
        let acc = cell_lines_joined(lines, n - 1);
        let t = cell_line_text(lines[n - 1]);
        if t.len() == 0 {
            acc
        } else if acc.len() == 0 {
            t
        } else {
            acc + seq![' '] + t
        }
    }
}

pub open spec fn cell_text(c: CellContent) -> Seq<char> {
    trim(cell_lines_joined(c.lines@, c.lines@.len() as int))
}

pub open spec fn cell_has_bold(c: CellContent) -> bool {
    exists|i: int, j: int|
        0 <= i < c.lines@.len() && 0 <= j < c.lines@[i].fragments@.len()
            && #[trigger] c.lines@[i].fragments@[j].is_bold
}

pub open spec fn cell_has_italic(c: CellContent) -> bool {
    exists|i: int, j: int|
        0 <= i < c.lines@.len() && 0 <= j < c.lines@[i].fragments@.len()
            && #[trigger] c.lines@[i].fragments@[j].is_italic
}

pub open spec fn cell_has_underline(c: CellContent) -> bool {
    exists|i: int, j: int|
        0 <= i < c.lines@.len() && 0 <= j < c.lines@[i].fragments@.len()
            && #[trigger] c.lines@[i].fragments@[j].is_underlined
}

/// A cell as a value: text, bold, italic, underlined, column and row span.
pub type CellView = (Seq<char>, bool, bool, bool, nat, nat);

pub open spec fn table_cell_view(t: TableCell) -> CellView {
    (t.text@, t.is_bold, t.is_italic, t.is_underlined, t.col_span as nat, t.row_span as nat)
}

/// The cell built from `c`: its text, whether any fragment is bold, italic
/// or underlined, spanning one column and one row.
pub open spec fn built_cell(c: CellContent) -> CellView {
    (cell_text(c), cell_has_bold(c), cell_has_italic(c), cell_has_underline(c), 1, 1)
}

pub open spec fn built_row(cells: Seq<CellContent>) -> Seq<CellView> {
    cells.map_values(|c: CellContent| built_cell(c))
}

pub open spec fn row_has_text(r: Seq<CellView>) -> bool {
    exists|k: int| 0 <= k < r.len() && (#[trigger] r[k]).0.len() > 0
}

/// Rows built from the first `n` grid rows, keeping those with some text.
pub open spec fn kept_rows(grid: Seq<Vec<CellContent>>, n: int) -> Seq<Seq<CellView>>
    decreases n,
{
    if n <= 0 {
        Seq::empty()
    } else {
        let acc = kept_rows(grid, n - 1);
        let r = built_row(grid[n - 1]@);
        if row_has_text(r) {
            acc.push(r)
        } else {
            acc
        }
    }
}

/// A grid row is kept exactly when at least one of its cells, in any
/// column, has non-empty text: the rows kept from the first `n` grid rows
/// are those rows, in grid order, each built cell by cell.
pub proof fn lemma_rows_kept_with_text(grid: Seq<Vec<CellContent>>, n: int)
    requires
        0 <= n <= grid.len(),
    ensures
        kept_rows(grid, n) == grid.take(n).filter(
            |r: Vec<CellContent>|
                exists|c: int| 0 <= c < r@.len() && #[trigger] cell_text(r@[c]).len() > 0,
        ).map_values(|r: Vec<CellContent>| built_row(r@)),
    decreases n,
{
    let pred = |r: Vec<CellContent>|
        exists|c: int| 0 <= c < r@.len() && #[trigger] cell_text(r@[c]).len() > 0;
    let build = |r: Vec<CellContent>| built_row(r@);
    if n == 0 {
        assert(grid.take(0) =~= Seq::<Vec<CellContent>>::empty());
        assert(grid.take(0).filter(pred) =~= Seq::<Vec<CellContent>>::empty()) by {
            reveal(Seq::filter);
        }
    } else {
        lemma_rows_kept_with_text(grid, n - 1);
        let r = grid[n - 1];
        assert(grid.take(n) =~= grid.take(n - 1).push(r));
        grid.take(n - 1).lemma_filter_push(r, pred);
        let row = built_row(r@);
        assert(row_has_text(row) == pred(r)) by {
            if row_has_text(row) {
                let k = choose|k: int| 0 <= k < row.len() && (#[trigger] row[k]).0.len() > 0;
                assert(cell_text(r@[k]).len() > 0);
            }
            if pred(r) {
                let c = choose|c: int| 0 <= c < r@.len() && #[trigger] cell_text(r@[c]).len() > 0;
                assert(row[c].0.len() > 0);
            }
        }
        let f = grid.take(n - 1).filter(pred);
        if pred(r) {
            assert(f.push(r).map_values(build) =~= f.map_values(build).push(build(r)));
        }
    }
}

pub open spec fn table_rows_view(t: Table) -> Seq<Seq<CellView>> {
    t.rows@.map_values(|r: TableRow| r.cells@.map_values(|c: TableCell| table_cell_view(c)))
}

fn append_chars(acc: &mut Vec<char>, t: &[char])
    ensures
        final(acc)@ == old(acc)@ + t@,
{
    let ghost before = acc@;
    let mut m: usize = 0;
    while m < t.len()
        invariant
            m <= t.len(),
            acc@ == before + t@.take(m as int),
        decreases t.len() - m,
    {
        acc.push(t[m]);
        m = m + 1;
        assert(acc@ =~= before + t@.take(m as int));
    }
    assert(t@.take(t.len() as int) =~= t@);
}

/// The trimmed text of one cell line.
pub fn merge_cell_line(line: &CellLine) -> (out: Vec<char>)
    ensures
        out@ == cell_line_text(*line),
{
    let frags = &line.fragments;
    let mut acc: Vec<char> = Vec::new();
    let mut i: usize = 0;
    while i < frags.len()
        invariant
            i <= frags.len(),
            frags@ == line.fragments@,
            acc@ == cell_line_prefix(frags@, line.wide_gaps@, i as int),
        decreases frags.len() - i,
    {
        let t = chars_of(frags[i].text.as_str());
        if i > 0 {
            let gap = i < line.wide_gaps.len() && line.wide_gaps[i];
            let ends_space = acc.len() > 0 && acc[acc.len() - 1] == ' ';
            let starts_space = t.len() > 0 && t[0] == ' ';
            if gap && !ends_space && !starts_space {
                acc.push(' ');
            }
        }
        append_chars(&mut acc, t.as_slice());
        i = i + 1;
    }
    trim_chars(acc.as_slice())
}

/// The text of a cell: its non-empty line texts joined with spaces, trimmed.
pub fn merge_cell_fragments(cell: &CellContent) -> (out: String)
    ensures
        out@ == cell_text(*cell),
{
    let lines = &cell.lines;
    let mut acc: Vec<char> = Vec::new();
    let mut i: usize = 0;
    while i < lines.len()
        invariant
            i <= lines.len(),
            lines@ == cell.lines@,
            acc@ == cell_lines_joined(lines@, i as int),
        decreases lines.len() - i,
    {
        let t = merge_cell_line(&lines[i]);
        if t.len() > 0 {
            if acc.len() > 0 {
                acc.push(' ');
            }
            append_chars(&mut acc, t.as_slice());
        }
        i = i + 1;
    }
    let out = trim_chars(acc.as_slice());
    string_of(out.as_slice())
}

/// Whether some fragment of the cell has the chosen flag (0: bold,
/// 1: italic, otherwise underlined).
fn cell_flag(cell: &CellContent, which: u8) -> (b: bool)
    ensures
        which == 0 ==> b == cell_has_bold(*cell),
        which == 1 ==> b == cell_has_italic(*cell),
        which >= 2 ==> b == cell_has_underline(*cell),
{
    let lines = &cell.lines;
    let mut i: usize = 0;
    while i < lines.len()
        invariant
            i <= lines.len(),
            lines@ == cell.lines@,
            forall|a: int, j: int|
                0 <= a < i && 0 <= j < lines@[a].fragments@.len() ==> {
                    let f = #[trigger] lines@[a].fragments@[j];
                    &&& which == 0 ==> !f.is_bold
                    &&& which == 1 ==> !f.is_italic
                    &&& which >= 2 ==> !f.is_underlined
                },
        decreases lines.len() - i,
    {
        let frags = &lines[i].fragments;
        let mut j: usize = 0;
        while j < frags.len()
            invariant
                i < lines.len(),
                lines@ == cell.lines@,
                j <= frags.len(),
                frags@ == lines@[i as int].fragments@,
                forall|m: int|
                    0 <= m < j ==> {
                        let f = #[trigger] frags@[m];
                        &&& which == 0 ==> !f.is_bold
                        &&& which == 1 ==> !f.is_italic
                        &&& which >= 2 ==> !f.is_underlined
                    },
            decreases frags.len() - j,
        {
            let f = &frags[j];
            let set = if which == 0 {
                f.is_bold
            } else if which == 1 {
                f.is_italic
            } else {
                f.is_underlined
            };
            if set {
                proof {
                    let g = cell.lines@[i as int].fragments@[j as int];
                    assert(g == *f);
                    if which == 0 {
                        assert(g.is_bold);
                    } else if which == 1 {
                        assert(g.is_italic);
                    } else {
                        assert(g.is_underlined);
                    }
                }
                return true;
            }
            j = j + 1;
        }
        i = i + 1;
    }
    false
}

/// The table cell built from the fragments of one grid cell.
pub fn build_cell(cell: &CellContent) -> (out: TableCell)
    ensures
        table_cell_view(out) == built_cell(*cell),
{
    TableCell {
        text: merge_cell_fragments(cell),
        is_bold: cell_flag(cell, 0),
        is_italic: cell_flag(cell, 1),
        is_underlined: cell_flag(cell, 2),
        col_span: 1,
        row_span: 1,
    }
}

/// Builds a table from a grid of cells, top row first: every cell of a row
/// becomes a table cell, and rows whose cells all lack text are dropped.
pub fn build_table(grid: &Vec<Vec<CellContent>>, col_count: usize) -> (t: Table)
    ensures
        table_rows_view(t) == kept_rows(grid@, grid@.len() as int),
        t.col_count == col_count,
{
    let mut rows: Vec<TableRow> = Vec::new();
    let mut r: usize = 0;
    while r < grid.len()
        invariant
            r <= grid.len(),
            table_rows_view(Table { rows, col_count }) == kept_rows(grid@, r as int),
        decreases grid.len() - r,
    {
        let cells_in = &grid[r];
        let mut cells: Vec<TableCell> = Vec::new();
        let mut has_text = false;
        let mut c: usize = 0;
        while c < cells_in.len()
            invariant
                r < grid.len(),
                c <= cells_in.len(),
                cells_in@ == grid@[r as int]@,
                cells@.map_values(|x: TableCell| table_cell_view(x)) == built_row(
                    cells_in@.take(c as int),
                ),
                has_text == row_has_text(built_row(cells_in@.take(c as int))),
            decreases cells_in.len() - c,
        {
            let cell = build_cell(&cells_in[c]);
            let ghost prev_cells = cells@;
            let nonempty = !cell.text.as_str().is_empty();
            let ghost cv = table_cell_view(cell);
            cells.push(cell);
            proof {
                let before = built_row(cells_in@.take(c as int));
                let after = built_row(cells_in@.take(c + 1));
                assert(cells_in@.take(c + 1) =~= cells_in@.take(c as int).push(cells_in@[c as int]));
                assert(after =~= before.push(cv));
                assert(cells@.map_values(|x: TableCell| table_cell_view(x)) =~= after);
                if row_has_text(before) {
                    let k = choose|k: int| 0 <= k < before.len() && (#[trigger] before[k]).0.len() > 0;
                    assert(after[k] == before[k]);
                }
                if row_has_text(after) && !row_has_text(before) {
                    let k = choose|k: int| 0 <= k < after.len() && (#[trigger] after[k]).0.len() > 0;
                    assert(k == before.len());
                }
                if nonempty {
                    assert(after[before.len() as int].0.len() > 0);
                }
            }
            has_text = has_text || nonempty;
            c = c + 1;
        }
        assert(cells_in@.take(cells_in.len() as int) =~= cells_in@);
        if has_text {
            let ghost before = table_rows_view(Table { rows, col_count });
            let row = TableRow { cells };
            rows.push(row);
            assert(table_rows_view(Table { rows, col_count }) =~= before.push(
                built_row(grid@[r as int]@),
            ));
        }
        r = r + 1;
    }
    Table { rows, col_count }
}

/// The table of a grid, when it keeps at least two rows.
pub fn extract_table(grid: &Vec<Vec<CellContent>>, col_count: usize) -> (t: Option<Table>)
    ensures
        match t {
            Some(t) => {
                &&& table_rows_view(t) == kept_rows(grid@, grid@.len() as int)
                &&& t.col_count == col_count
                &&& kept_rows(grid@, grid@.len() as int).len() >= 2
            },
            None => kept_rows(grid@, grid@.len() as int).len() < 2,
        },
{
    let t = build_table(grid, col_count);
    if t.rows.len() < 2 {
        None
    } else {
        Some(t)
    }
}

} // verus!
