//! Terminal tables aligned by display width (a CJK character takes two
//! columns).

use vstd::prelude::*;
use crate::text::{
    chars_of, join, join_chars, lemma_split_concat, lemma_split_plain, push_all, push_str_chars, split_on,
    string_from, views,
};

verus! {

/// The number of terminal columns `unicode_width` gives a string.
pub uninterp spec fn display_width(s: Seq<char>) -> usize;

/// `UnicodeWidthStr::width` of `unicode-width`: the number of terminal
/// columns of a string.  The contract only names the result by
/// `display_width` of the characters (the same text always has the same
/// width); the width tables themselves are left unsaid.
#[verifier::external_body]
fn width_of(s: &str) -> (w: usize)
    ensures
        w == display_width(s@),
{
    unicode_width::UnicodeWidthStr::width(s)
}

/// The characters of each string.
pub open spec fn strs(s: Seq<String>) -> Seq<Seq<char>> {
    s.map_values(|x: String| x@)
}

/// The characters of each cell of each row.
pub open spec fn rows_view(r: Seq<Vec<String>>) -> Seq<Seq<Seq<char>>> {
    r.map_values(|v: Vec<String>| strs(v@))
}

/// `n` copies of a character.
pub open spec fn pad(n: nat, c: char) -> Seq<char> {
    Seq::new(n, |_i: int| c)
}

/// The `i`-th cell, or the empty text when the row is shorter.
pub open spec fn cell_at(cells: Seq<Seq<char>>, i: int) -> Seq<char> {
    if i < cells.len() {
        cells[i]
    } else {
        Seq::empty()
    }
}

/// `a - b`, or 0 when `b > a`.
pub open spec fn sat_sub(a: usize, b: usize) -> nat {
    if a >= b {
        (a - b) as nat
    } else {
        0
    }
}

/// The first `n` cells of a row: each as `" cell" + padding + " |"`, after
/// a leading `|`; a cell is padded with spaces up to its column's width.
pub open spec fn row_cells(cells: Seq<Seq<char>>, widths: Seq<usize>, n: nat) -> Seq<char>
    decreases n,
{
    if n == 0 {
        "|"@
    } else {
        let i = n - 1;
        let c = cell_at(cells, i);
        row_cells(cells, widths, (n - 1) as nat) + " "@ + c + pad(
            sat_sub(widths[i], display_width(c)),
            ' ',
        ) + " |"@
    }
}

/// One rendered row: one cell per column width.
pub open spec fn row_text(cells: Seq<Seq<char>>, widths: Seq<usize>) -> Seq<char> {
    row_cells(cells, widths, widths.len())
}

/// The width of column `i`: the widest of its header width `hw` and the
/// `i`-th cell of each row that has one.
pub open spec fn column_width(hw: usize, rows: Seq<Seq<Seq<char>>>, i: int) -> usize
    decreases rows.len(),
{
    if rows.len() == 0 {
        hw
    } else {
        let w = column_width(hw, rows.drop_last(), i);
        let r = rows.last();
        if i < r.len() && display_width(r[i]) > w {
            display_width(r[i])
        } else {
            w
        }
    }
}

/// A column is as wide as its header and as every cell in it, and exactly
/// as wide as the widest of them.
pub proof fn lemma_column_width_fits(hw: usize, rows: Seq<Seq<Seq<char>>>, i: int)
    ensures
        column_width(hw, rows, i) >= hw,
        forall|k: int|
            0 <= k < rows.len() && i < rows[k].len() ==> column_width(hw, rows, i) >= display_width(
                #[trigger] rows[k][i],
            ),
        column_width(hw, rows, i) == hw || exists|k: int|
            0 <= k < rows.len() && i < rows[k].len() && column_width(hw, rows, i) == display_width(
                #[trigger] rows[k][i],
            ),
    decreases rows.len(),
{
    if rows.len() > 0 {
        let d = rows.drop_last();
        lemma_column_width_fits(hw, d, i);
        let n = rows.len() - 1;
        assert forall|k: int|
            0 <= k < rows.len() && i < rows[k].len() implies column_width(hw, rows, i) >= display_width(
            #[trigger] rows[k][i],
        ) by {
            if k < n {
                assert(rows[k] == d[k]);
            }
        }
        if column_width(hw, rows, i) != hw {
            if column_width(hw, rows, i) == column_width(hw, d, i) {
                let k = choose|k: int|
                    0 <= k < d.len() && i < d[k].len() && column_width(hw, d, i) == display_width(
                        #[trigger] d[k][i],
                    );
                assert(rows[k] == d[k]);
            } else {
                assert(column_width(hw, rows, i) == display_width(rows[n][i]));
            }
        }
    }
}

/// The column widths of a table: one per header cell.
pub open spec fn table_widths(header: Seq<Seq<char>>, rows: Seq<Seq<Seq<char>>>) -> Seq<usize> {
    Seq::new(header.len(), |i: int| column_width(display_width(header[i]), rows, i))
}

/// `+----+------+`: a run of `width + 2` dashes per column.
pub open spec fn sep_line(widths: Seq<usize>) -> Seq<char> {
    "+"@ + join(widths.map_values(|w: usize| pad((w + 2) as nat, '-')), "+"@) + "+"@
}

/// The rendered rows, each followed by a newline.
pub open spec fn rows_text(rows: Seq<Seq<Seq<char>>>, widths: Seq<usize>) -> Seq<char>
    decreases rows.len(),
{
    if rows.len() == 0 {
        Seq::empty()
    } else {
        rows_text(rows.drop_last(), widths) + row_text(rows.last(), widths) + "\n"@
    }
}

/// The whole table: separator, header, separator, rows, separator.
pub open spec fn table_text(header: Seq<Seq<char>>, rows: Seq<Seq<Seq<char>>>) -> Seq<char> {
    let w = table_widths(header, rows);
    sep_line(w) + "\n"@ + row_text(header, w) + "\n"@ + sep_line(w) + "\n"@ + rows_text(rows, w)
        + sep_line(w)
}

/// Appends `n` copies of `c`.
fn push_pad(out: &mut Vec<char>, n: usize, c: char)
    ensures
        final(out)@ == old(out)@ + pad(n as nat, c),
{
    let ghost start = out@;
    let mut i: usize = 0;
    while i < n
        invariant
            i <= n,
            out@ == start + pad(i as nat, c),
        decreases n - i,
    {
        out.push(c);
        assert(start + pad(i as nat, c) + seq![c] =~= start + pad((i + 1) as nat, c));
        i = i + 1;
    }
}

/// Renders one row: each cell padded on the right to its column width.
pub fn render_row(cells: &[String], widths: &[usize]) -> (s: String)
    ensures
        s@ == row_text(strs(cells@), widths@),
{
    let mut line = chars_of("|");
    let mut i: usize = 0;
    while i < widths.len()
        invariant
            i <= widths@.len(),
            line@ == row_cells(strs(cells@), widths@, i as nat),
        decreases widths@.len() - i,
    {
        let cell: &str = if i < cells.len() {
            cells[i].as_str()
        } else {
            ""
        };
        proof {
            if i >= cells@.len() {
                reveal_strlit("");
                assert(cell@ =~= Seq::<char>::empty());
            }
            assert(cell@ == cell_at(strs(cells@), i as int));
        }
        push_str_chars(&mut line, " ");
        push_str_chars(&mut line, cell);
        let cw = width_of(cell);
        let w = widths[i];
        let n: usize = if w >= cw {
            w - cw
        } else {
            0
        };
        push_pad(&mut line, n, ' ');
        push_str_chars(&mut line, " |");
        i = i + 1;
    }
    string_from(&line)
}

/// Renders a terminal table and returns the complete multi-line text.
pub fn render_table(header: &[String], rows: &[Vec<String>]) -> (s: String)
    ensures
        s@ == table_text(strs(header@), rows_view(rows@)),
{
    let ghost hv = strs(header@);
    let ghost rv = rows_view(rows@);
    let col_count = header.len();
    let mut widths: Vec<usize> = Vec::new();
    let mut h: usize = 0;
    while h < col_count
        invariant
            col_count == header@.len(),
            hv == strs(header@),
            h <= col_count,
            widths@.len() == h,
            forall|i: int| 0 <= i < h ==> widths@[i] == display_width(hv[i]),
        decreases col_count - h,
    {
        widths.push(width_of(header[h].as_str()));
        h = h + 1;
    }
    let mut r: usize = 0;
    assert(rv.take(0) =~= Seq::<Seq<Seq<char>>>::empty());
    while r < rows.len()
        invariant
            col_count == header@.len(),
            hv == strs(header@),
            rv == rows_view(rows@),
            r <= rows@.len(),
            widths@.len() == col_count,
            forall|i: int|
                0 <= i < col_count ==> widths@[i] == column_width(
                    display_width(hv[i]),
                    rv.take(r as int),
                    i,
                ),
        decreases rows@.len() - r,
    {
        let row = &rows[r];
        let ghost rcells = strs(row@);
        proof {
            assert(rv.take(r + 1).drop_last() =~= rv.take(r as int));
            assert(rv.take(r + 1).last() == rcells);
        }
        let mut c: usize = 0;
        while c < row.len()
            invariant
                col_count == header@.len(),
                hv == strs(header@),
                rv == rows_view(rows@),
                r < rows@.len(),
                row@ == rows@[r as int]@,
                rcells == strs(row@),
                rv.take(r + 1).drop_last() == rv.take(r as int),
                rv.take(r + 1).last() == rcells,
                c <= row@.len(),
                widths@.len() == col_count,
                forall|i: int|
                    0 <= i < col_count ==> widths@[i] == if i < c {
                        column_width(display_width(hv[i]), rv.take(r + 1), i)
                    } else {
                        column_width(display_width(hv[i]), rv.take(r as int), i)
                    },
            decreases row@.len() - c,
        {
            if c < col_count {
                let cw = width_of(row[c].as_str());
                if cw > widths[c] {
                    widths.set(c, cw);
                }
            }
            c = c + 1;
        }
        proof {
            assert forall|i: int| 0 <= i < col_count implies widths@[i] == column_width(
                display_width(hv[i]),
                rv.take(r + 1),
                i,
            ) by {
                if i >= row@.len() {
                    assert(!(i < rcells.len()));
                }
            }
        }
        r = r + 1;
    }
    proof {
        assert(rv.take(rows@.len() as int) =~= rv);
        assert(widths@ =~= table_widths(hv, rv));
    }
    let mut dash_parts: Vec<Vec<char>> = Vec::new();
    let mut k: usize = 0;
    while k < widths.len()
        invariant
            k <= widths@.len(),
            views(dash_parts@) == widths@.take(k as int).map_values(
                |w: usize| pad((w + 2) as nat, '-'),
            ),
        decreases widths@.len() - k,
    {
        let mut d: Vec<char> = Vec::new();
        push_pad(&mut d, widths[k], '-');
        push_pad(&mut d, 2, '-');
        let ghost before = views(dash_parts@);
        let ghost dv = d@;
        assert(dv =~= pad((widths@[k as int] + 2) as nat, '-'));
        dash_parts.push(d);
        assert(views(dash_parts@) =~= before.push(dv));
        assert(widths@.take(k + 1).map_values(|w: usize| pad((w + 2) as nat, '-')) =~= widths@.take(
            k as int,
        ).map_values(|w: usize| pad((w + 2) as nat, '-')).push(dv));
        k = k + 1;
    }
    assert(widths@.take(widths@.len() as int) =~= widths@);
    let plus = chars_of("+");
    let mut sep = chars_of("+");
    let inner = join_chars(&dash_parts, &plus);
    push_all(&mut sep, &inner);
    push_str_chars(&mut sep, "+");
    let mut out: Vec<char> = Vec::new();
    push_all(&mut out, &sep);
    push_str_chars(&mut out, "\n");
    let head = render_row(header, &widths);
    push_str_chars(&mut out, head.as_str());
    push_str_chars(&mut out, "\n");
    push_all(&mut out, &sep);
    push_str_chars(&mut out, "\n");
    let ghost before_rows = out@;
    let mut q: usize = 0;
    assert(rv.take(0) =~= Seq::<Seq<Seq<char>>>::empty());
    while q < rows.len()
        invariant
            q <= rows@.len(),
            rv == rows_view(rows@),
            out@ == before_rows + rows_text(rv.take(q as int), widths@),
        decreases rows@.len() - q,
    {
        let line = render_row(rows[q].as_slice(), &widths);
        push_str_chars(&mut out, line.as_str());
        push_str_chars(&mut out, "\n");
        proof {
            assert(rv.take(q + 1).drop_last() =~= rv.take(q as int));
            assert(rv.take(q + 1).last() == strs(rows@[q as int]@));
        }
        q = q + 1;
    }
    assert(rv.take(rows@.len() as int) =~= rv);
    push_all(&mut out, &sep);
    string_from(&out)
}

/// No cell of a table holds a line break.
pub open spec fn single_line_cells(header: Seq<Seq<char>>, rows: Seq<Seq<Seq<char>>>) -> bool {
    &&& forall|i: int| 0 <= i < header.len() ==> !(#[trigger] header[i]).contains('\n')
    &&& forall|k: int, i: int|
        0 <= k < rows.len() && 0 <= i < rows[k].len() ==> !(#[trigger] rows[k][i]).contains('\n')
}

proof fn lemma_no_newline_concat(a: Seq<char>, b: Seq<char>)
    requires
        !a.contains('\n'),
        !b.contains('\n'),
    ensures
        !(a + b).contains('\n'),
{
    if (a + b).contains('\n') {
        let i = choose|i: int| 0 <= i < (a + b).len() && (a + b)[i] == '\n';
        if i < a.len() {
            assert(a[i] == '\n');
        } else {
            assert(b[i - a.len()] == '\n');
        }
    }
}

proof fn lemma_pad_no_newline(n: nat, c: char)
    requires
        c != '\n',
    ensures
        !pad(n, c).contains('\n'),
{
}

proof fn lemma_row_cells_one_line(cells: Seq<Seq<char>>, widths: Seq<usize>, n: nat)
    requires
        n <= widths.len(),
        forall|i: int| 0 <= i < cells.len() ==> !(#[trigger] cells[i]).contains('\n'),
    ensures
        !row_cells(cells, widths, n).contains('\n'),
    decreases n,
{
    reveal_strlit("|");
    reveal_strlit(" ");
    reveal_strlit(" |");
    if n > 0 {
        let i = n - 1;
        lemma_row_cells_one_line(cells, widths, (n - 1) as nat);
        let c = cell_at(cells, i);
        assert(!c.contains('\n')) by {
            if i >= cells.len() {
                assert(c =~= Seq::<char>::empty());
            }
        }
        let p = pad(sat_sub(widths[i], display_width(c)), ' ');
        lemma_pad_no_newline(sat_sub(widths[i], display_width(c)), ' ');
        let r = row_cells(cells, widths, (n - 1) as nat);
        lemma_no_newline_concat(r, " "@);
        lemma_no_newline_concat(r + " "@, c);
        lemma_no_newline_concat(r + " "@ + c, p);
        lemma_no_newline_concat(r + " "@ + c + p, " |"@);
    } else {
        assert(!"|"@.contains('\n')) by {
            assert("|"@.len() == 1);
        }
    }
}

proof fn lemma_join_no_newline(parts: Seq<Seq<char>>, sep: Seq<char>)
    requires
        !sep.contains('\n'),
        forall|i: int| 0 <= i < parts.len() ==> !(#[trigger] parts[i]).contains('\n'),
    ensures
        !join(parts, sep).contains('\n'),
    decreases parts.len(),
{
    if parts.len() > 1 {
        let d = parts.drop_last();
        assert forall|i: int| 0 <= i < d.len() implies !(#[trigger] d[i]).contains('\n') by {
            assert(d[i] == parts[i]);
        }
        lemma_join_no_newline(d, sep);
        lemma_no_newline_concat(join(d, sep), sep);
        lemma_no_newline_concat(join(d, sep) + sep, parts.last());
    } else if parts.len() == 0 {
        assert(join(parts, sep) =~= Seq::<char>::empty());
    }
}

proof fn lemma_sep_line_one_line(widths: Seq<usize>)
    ensures
        !sep_line(widths).contains('\n'),
{
    reveal_strlit("+");
    assert(!"+"@.contains('\n')) by {
        assert("+"@.len() == 1);
    }
    let parts = widths.map_values(|w: usize| pad((w + 2) as nat, '-'));
    assert forall|i: int| 0 <= i < parts.len() implies !(#[trigger] parts[i]).contains('\n') by {
        lemma_pad_no_newline((widths[i] + 2) as nat, '-');
    }
    lemma_join_no_newline(parts, "+"@);
    lemma_no_newline_concat("+"@, join(parts, "+"@));
    lemma_no_newline_concat("+"@ + join(parts, "+"@), "+"@);
}

proof fn lemma_rows_lines(x: Seq<char>, rows: Seq<Seq<Seq<char>>>, widths: Seq<usize>, z: Seq<char>)
    requires
        !z.contains('\n'),
        forall|k: int| 0 <= k < rows.len() ==> !row_text(#[trigger] rows[k], widths).contains('\n'),
    ensures
        split_on(x + "\n"@ + rows_text(rows, widths) + z, '\n') == split_on(x, '\n') + rows.map_values(
            |r: Seq<Seq<char>>| row_text(r, widths),
        ) + seq![z],
    decreases rows.len(),
{
    reveal_strlit("\n");
    assert("\n"@ =~= seq!['\n']);
    lemma_split_plain(z, '\n');
    if rows.len() == 0 {
        assert(x + "\n"@ + rows_text(rows, widths) + z =~= x + seq!['\n'] + z);
        lemma_split_concat(x, z, '\n');
        assert(rows.map_values(|r: Seq<Seq<char>>| row_text(r, widths)) =~= Seq::<Seq<char>>::empty());
        assert(split_on(x, '\n') + Seq::<Seq<char>>::empty() + seq![z] =~= split_on(x, '\n') + seq![z]);
    } else {
        let d = rows.drop_last();
        let rl = row_text(rows.last(), widths);
        assert forall|k: int| 0 <= k < d.len() implies !row_text(#[trigger] d[k], widths).contains('\n') by {
            assert(d[k] == rows[k]);
        }
        assert(!rl.contains('\n')) by {
            assert(rows.last() == rows[rows.len() - 1]);
        }
        lemma_rows_lines(x, d, widths, rl);
        let a = x + "\n"@ + rows_text(d, widths) + rl;
        assert(x + "\n"@ + rows_text(rows, widths) + z =~= a + seq!['\n'] + z);
        lemma_split_concat(a, z, '\n');
        assert(rows.map_values(|r: Seq<Seq<char>>| row_text(r, widths)) =~= d.map_values(
            |r: Seq<Seq<char>>| row_text(r, widths),
        ).push(rl));
        assert(split_on(x, '\n') + d.map_values(|r: Seq<Seq<char>>| row_text(r, widths)) + seq![rl] + seq![z]
            =~= split_on(x, '\n') + rows.map_values(|r: Seq<Seq<char>>| row_text(r, widths)) + seq![z]);
    }
}

/// A table whose cells hold no line break has one line per row plus four,
/// with no line break after the last: the separator, the header, the
/// separator, the rows in order, and the separator again.
pub proof fn lemma_table_lines(header: Seq<Seq<char>>, rows: Seq<Seq<Seq<char>>>)
    requires
        single_line_cells(header, rows),
    ensures
        split_on(table_text(header, rows), '\n') == seq![
            sep_line(table_widths(header, rows)),
            row_text(header, table_widths(header, rows)),
            sep_line(table_widths(header, rows)),
        ] + rows.map_values(|r: Seq<Seq<char>>| row_text(r, table_widths(header, rows))) + seq![
            sep_line(table_widths(header, rows)),
        ],
        split_on(table_text(header, rows), '\n').len() == rows.len() + 4,
        table_text(header, rows).last() == '+',
{
    reveal_strlit("\n");
    reveal_strlit("+");
    assert("\n"@ =~= seq!['\n']);
    let w = table_widths(header, rows);
    let sl = sep_line(w);
    let h = row_text(header, w);
    lemma_sep_line_one_line(w);
    lemma_row_cells_one_line(header, w, w.len());
    assert forall|k: int| 0 <= k < rows.len() implies !row_text(#[trigger] rows[k], w).contains('\n') by {
        assert forall|i: int| 0 <= i < rows[k].len() implies !(#[trigger] rows[k][i]).contains('\n') by {
        }
        lemma_row_cells_one_line(rows[k], w, w.len());
    }
    lemma_split_plain(sl, '\n');
    lemma_split_plain(h, '\n');
    lemma_split_concat(sl, h, '\n');
    lemma_split_concat(sl + seq!['\n'] + h, sl, '\n');
    let x = sl + "\n"@ + h + "\n"@ + sl;
    assert(x =~= sl + seq!['\n'] + h + seq!['\n'] + sl);
    assert(split_on(x, '\n') =~= seq![sl, h, sl]);
    lemma_rows_lines(x, rows, w, sl);
    assert(table_text(header, rows) =~= x + "\n"@ + rows_text(rows, w) + sl);
    assert(sl.last() == '+');
    assert(table_text(header, rows).last() == sl.last());
}

/// Each shown cell is padded to exactly its column's width (measured in
/// display width), and a row shows one cell per header column: cells
/// beyond the header's count are not shown.
pub proof fn lemma_table_padding(header: Seq<Seq<char>>, rows: Seq<Seq<Seq<char>>>, k: int, i: int)
    requires
        0 <= i < header.len(),
        0 <= k < rows.len(),
    ensures
        display_width(header[i]) + sat_sub(table_widths(header, rows)[i], display_width(header[i]))
            == table_widths(header, rows)[i],
        i < rows[k].len() ==> display_width(rows[k][i]) + sat_sub(
            table_widths(header, rows)[i],
            display_width(rows[k][i]),
        ) == table_widths(header, rows)[i],
        rows[k].len() > header.len() ==> row_text(rows[k], table_widths(header, rows)) == row_text(
            rows[k].take(header.len() as int),
            table_widths(header, rows),
        ),
{
    lemma_column_width_fits(display_width(header[i]), rows, i);
    let w = table_widths(header, rows);
    if rows[k].len() > header.len() {
        lemma_row_cells_take(rows[k], w, w.len(), header.len());
    }
}

proof fn lemma_row_cells_take(cells: Seq<Seq<char>>, widths: Seq<usize>, n: nat, m: nat)
    requires
        n <= m <= cells.len(),
    ensures
        row_cells(cells, widths, n) == row_cells(cells.take(m as int), widths, n),
    decreases n,
{
    if n > 0 {
        lemma_row_cells_take(cells, widths, (n - 1) as nat, m);
        assert(cell_at(cells, n - 1) == cell_at(cells.take(m as int), n - 1));
    }
}

} // verus!
