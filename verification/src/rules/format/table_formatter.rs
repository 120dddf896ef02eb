//! F004: table alignment.
use vstd::prelude::*;
use crate::diagnostic::Fix;
use crate::lines::{fixes_view, line_ranges, line_spans, push_fix};
use crate::rules::{FormatContext, FormatRule};
use crate::text::{
    char_is_digit, copy_range, is_digit, lead_count, push_all, ranges_view, rskip_char, seq_eq, skip_char, skip_ws,
    split_char, split_ranges, strip_cr, strip_cr_end, string_from, trail_count, trim, trim_range, trim_start,
};
use crate::unicode::{display_width, text_width};

verus! {

/// Aligns the columns of each table: every cell of a column is padded to the
/// column's display width, columns of numbers (header rows aside) are aligned
/// right and others left, and separator rows are redrawn to the widths.
pub struct TableFormatter;

/// A table row: a separator, or its cells.
pub enum RowView {
    Separator,
    Data(Seq<Seq<char>>),
}

/// Whether a character may stand in a separator row.
pub open spec fn sep_char(c: char) -> bool {
    c == '-' || c == '+' || c == '|' || c == ' '
}

/// Whether a trimmed line is a separator row such as `|---+---|`.
pub open spec fn separator_row(tr: Seq<char>) -> bool {
    let a = tr.skip(lead_count(tr, '|') as int);
    let inner = a.take(a.len() - trail_count(a, '|'));
    &&& tr.len() > 0 && tr[0] == '|'
    &&& inner.len() > 0
    &&& all_sep(inner)
    &&& has_dash(inner)
}

pub open spec fn all_sep(s: Seq<char>) -> bool {
    forall|i: int| 0 <= i < s.len() ==> sep_char(#[trigger] s[i])
}

pub open spec fn has_dash(s: Seq<char>) -> bool {
    exists|i: int| 0 <= i < s.len() && #[trigger] s[i] == '-'
}

pub open spec fn has_digit(s: Seq<char>) -> bool {
    exists|i: int| 0 <= i < s.len() && is_digit(#[trigger] s[i])
}

pub open spec fn all_num(s: Seq<char>) -> bool {
    forall|i: int| 0 <= i < s.len() ==> num_char(#[trigger] s[i])
}

/// The trimmed cells of a trimmed data row, one `|` removed at each end.
pub open spec fn row_cells(tr: Seq<char>) -> Seq<Seq<char>> {
    let a = if tr.len() > 0 && tr[0] == '|' { tr.drop_first() } else { tr };
    let b = if a.len() > 0 && a.last() == '|' { a.drop_last() } else { a };
    split_char(b, '|').map_values(|c: Seq<char>| trim(c))
}

/// The row of a table line.
pub open spec fn row_of(raw: Seq<char>) -> RowView {
    let tr = trim(raw);
    if separator_row(tr) {
        RowView::Separator
    } else {
        RowView::Data(row_cells(tr))
    }
}

/// Whether a character may stand in a number cell.
pub open spec fn num_char(c: char) -> bool {
    is_digit(c) || c == '.' || c == ',' || c == ' ' || c == '%' || c == '$' || c == '€'
}

/// Whether a cell reads as a number: an optional sign, then digits with
/// `.`, `,`, spaces, `%`, `$` or `€`.
pub open spec fn numeric_cell(s: Seq<char>) -> bool {
    let tr = trim(s);
    let rest = if tr.len() > 0 && (tr[0] == '-' || tr[0] == '+') { tr.drop_first() } else { tr };
    &&& tr.len() > 0
    &&& rest.len() > 0
    &&& has_digit(rest)
    &&& all_num(rest)
}

/// The number of columns of the first `m` rows: the most cells of a data row.
pub open spec fn max_cols(rows: Seq<RowView>, m: int) -> Option<nat>
    decreases m,
{
    if m <= 0 {
        None
    } else {
        let prev = max_cols(rows, m - 1);
        match rows[m - 1] {
            RowView::Data(c) => match prev {
                Some(p) => Some(if c.len() > p { c.len() } else { p }),
                None => Some(c.len()),
            },
            RowView::Separator => prev,
        }
    }
}

/// The width of column `j` over the first `m` rows: at least 1.
pub open spec fn col_width(rows: Seq<RowView>, j: int, m: int) -> nat
    decreases m,
{
    if m <= 0 {
        1
    } else {
        let prev = col_width(rows, j, m - 1);
        match rows[m - 1] {
            RowView::Data(c) => if 0 <= j < c.len() && display_width(c[j]) > prev {
                display_width(c[j])
            } else {
                prev
            },
            RowView::Separator => prev,
        }
    }
}

/// Whether row `i` is a header row: a data row followed by a separator.
pub open spec fn header_row(rows: Seq<RowView>, i: int) -> bool {
    0 <= i && i + 1 < rows.len() && rows[i + 1] is Separator
}

/// Whether no non-empty cell of column `j` in the first `m` rows, header rows
/// aside, fails to be a number (`.0`), and whether one is a number (`.1`).
pub open spec fn col_numbers(rows: Seq<RowView>, j: int, m: int) -> (bool, bool)
    decreases m,
{
    if m <= 0 {
        (true, false)
    } else {
        let (all, some) = col_numbers(rows, j, m - 1);
        if header_row(rows, m - 1) {
            (all, some)
        } else {
            match rows[m - 1] {
                RowView::Data(c) => if 0 <= j < c.len() && c[j].len() > 0 {
                    if numeric_cell(c[j]) {
                        (all, true)
                    } else {
                        (false, some)
                    }
                } else {
                    (all, some)
                },
                RowView::Separator => (all, some),
            }
        }
    }
}

/// Whether column `j` is aligned right: all its cells are numbers and one is.
pub open spec fn numeric_col(rows: Seq<RowView>, j: int) -> bool {
    let (all, some) = col_numbers(rows, j, rows.len() as int);
    all && some
}

pub open spec fn repeat_char(c: char, n: int) -> Seq<char> {
    Seq::new(n as nat, |_i: int| c)
}

/// The first `k` columns of a separator row.
pub open spec fn sep_cols(rows: Seq<RowView>, n: int, k: int) -> Seq<char>
    decreases k,
{
    if k <= 0 {
        Seq::empty()
    } else {
        sep_cols(rows, n, k - 1) + seq!['-'] + repeat_char('-', col_width(rows, k - 1, rows.len() as int) as int)
            + seq!['-'] + if k - 1 < n - 1 { seq!['+'] } else { Seq::<char>::empty() }
    }
}

/// Cell `j` of a data row, or the empty text.
pub open spec fn cell_at(c: Seq<Seq<char>>, j: int) -> Seq<char> {
    if 0 <= j < c.len() { c[j] } else { Seq::empty() }
}

/// The first `k` columns of a data row.
pub open spec fn data_cols(rows: Seq<RowView>, c: Seq<Seq<char>>, k: int) -> Seq<char>
    decreases k,
{
    if k <= 0 {
        Seq::empty()
    } else {
        let j = k - 1;
        let cell = cell_at(c, j);
        let pad = repeat_char(' ', col_width(rows, j, rows.len() as int) - display_width(cell));
        data_cols(rows, c, k - 1) + seq![' '] + if numeric_col(rows, j) { pad + cell } else { cell + pad } + seq![' ', '|']
    }
}

/// A row, formatted.
pub open spec fn render_row(rows: Seq<RowView>, n: int, r: RowView) -> Seq<char> {
    match r {
        RowView::Separator => seq!['|'] + sep_cols(rows, n, n) + seq!['|', '\n'],
        RowView::Data(c) => seq!['|'] + data_cols(rows, c, n) + seq!['\n'],
    }
}

/// The first `m` rows, formatted.
pub open spec fn render_rows(rows: Seq<RowView>, n: int, m: int) -> Seq<char>
    decreases m,
{
    if m <= 0 {
        Seq::empty()
    } else {
        render_rows(rows, n, m - 1) + render_row(rows, n, rows[m - 1])
    }
}

/// A table, formatted; `None` when it has no data row.
pub open spec fn format_spec(rows: Seq<RowView>) -> Option<Seq<char>> {
    match max_cols(rows, rows.len() as int) {
        Some(n) => Some(render_rows(rows, n as int, rows.len() as int)),
        None => None,
    }
}

/// Whether line `i` is a table line.
pub open spec fn table_line(t: Seq<char>, spans: Seq<(int, int)>, i: int) -> bool {
    let tr = trim_start(strip_cr(t.subrange(spans[i].0, spans[i].1)));
    tr.len() > 0 && tr[0] == '|'
}

/// The first line from `i` on that is not a table line.
pub open spec fn table_end(t: Seq<char>, spans: Seq<(int, int)>, i: int) -> int
    decreases spans.len() - i,
{
    if i < 0 || i >= spans.len() || !table_line(t, spans, i) {
        i
    } else {
        table_end(t, spans, i + 1)
    }
}

/// The tables from line `i` on, as ranges of lines.
pub open spec fn tables_from(t: Seq<char>, spans: Seq<(int, int)>, i: int) -> Seq<(int, int)>
    decreases spans.len() - i,
{
    if i < 0 || i >= spans.len() {
        Seq::empty()
    } else if table_line(t, spans, i) {
        let e = table_end(t, spans, i);
        if i < e <= spans.len() {
            seq![(i, e)] + tables_from(t, spans, e)
        } else {
            Seq::empty()
        }
    } else {
        tables_from(t, spans, i + 1)
    }
}

/// The rows of lines `a..e`.
pub open spec fn table_rows(t: Seq<char>, spans: Seq<(int, int)>, a: int, e: int) -> Seq<RowView> {
    Seq::new((e - a) as nat, |k: int| row_of(strip_cr(t.subrange(spans[a + k].0, spans[a + k].1))))
}

/// The text range of lines `a..e`, through the newline after the last one
/// (or the end of the text).
pub open spec fn table_range(t: Seq<char>, spans: Seq<(int, int)>, a: int, e: int) -> (int, int) {
    (spans[a].0, if e < spans.len() { spans[e].0 } else { t.len() as int })
}

/// The fixes of the first `k` tables.
pub open spec fn table_fixes(t: Seq<char>, k: int) -> Seq<(int, int, Seq<char>)>
    decreases k,
{
    let spans = line_spans(t);
    let tables = tables_from(t, spans, 0);
    if k <= 0 {
        Seq::empty()
    } else {
        let (a, e) = tables[k - 1];
        let (start, end) = table_range(t, spans, a, e);
        table_fixes(t, k - 1) + match format_spec(table_rows(t, spans, a, e)) {
            Some(f) => if f != t.subrange(start, end) {
                seq![(start, end, f)]
            } else {
                Seq::empty()
            },
            None => Seq::empty(),
        }
    }
}

// ---------------------------------------------------------------------------
// Executable
// ---------------------------------------------------------------------------
/// A table row.
enum Row {
    Separator,
    Data(Vec<Vec<char>>),
}

spec fn cells_view(c: Seq<Vec<char>>) -> Seq<Seq<char>> {
    c.map_values(|x: Vec<char>| x@)
}

spec fn row_view(r: Row) -> RowView {
    match r {
        Row::Separator => RowView::Separator,
        Row::Data(c) => RowView::Data(cells_view(c@)),
    }
}

spec fn rows_view(v: Seq<Row>) -> Seq<RowView> {
    v.map_values(|r: Row| row_view(r))
}

/// Whether the trimmed text `s[lo..hi]` is a separator row.
#[verifier::loop_isolation(false)]
fn is_separator_row(s: &[char], lo: usize, hi: usize) -> (b: bool)
    requires
        lo <= hi <= s@.len(),
    ensures
        b == separator_row(s@.subrange(lo as int, hi as int)),
{
    let ghost tr = s@.subrange(lo as int, hi as int);
    if hi == lo || s[lo] != '|' {
        return false;
    }
    let a = skip_char(s, lo, hi, '|');
    assert(s@.subrange(a as int, hi as int) =~= tr.skip(a - lo));
    let b = rskip_char(s, a, hi, '|');
    let ghost inner = s@.subrange(a as int, b as int);
    assert(inner =~= tr.skip(a - lo).take(tr.skip(a - lo).len() - trail_count(tr.skip(a - lo), '|')));
    if a == b {
        return false;
    }
    let mut k = a;
    let mut dash = false;
    while k < b
        invariant
            a <= k <= b <= hi <= s@.len(),
            inner == s@.subrange(a as int, b as int),
            forall|i: int| 0 <= i < k - a ==> sep_char(#[trigger] inner[i]),
            dash == exists|i: int| 0 <= i < k - a && #[trigger] inner[i] == '-',
        decreases b - k,
    {
        let c = s[k];
        assert(inner[k - a] == c);
        if !(c == '-' || c == '+' || c == '|' || c == ' ') {
            return false;
        }
        if c == '-' {
            dash = true;
        }
        k += 1;
    }
    dash
}

/// Whether the cell `c` reads as a number.
#[verifier::loop_isolation(false)]
fn is_numeric(c: &[char]) -> (b: bool)
    ensures
        b == numeric_cell(c@),
{
    assert(c@.subrange(0, c@.len() as int) =~= c@);
    let (t0, t1) = trim_range(c, 0, c.len());
    let ghost tr = c@.subrange(t0 as int, t1 as int);
    if t0 == t1 {
        return false;
    }
    let r0 = if c[t0] == '-' || c[t0] == '+' { t0 + 1 } else { t0 };
    let ghost rest = c@.subrange(r0 as int, t1 as int);
    assert(tr[0] == c@[t0 as int]);
    assert(rest =~= if tr.len() > 0 && (tr[0] == '-' || tr[0] == '+') { tr.drop_first() } else { tr });
    if r0 == t1 {
        return false;
    }
    let mut k = r0;
    let mut digit = false;
    while k < t1
        invariant
            r0 <= k <= t1 <= c@.len(),
            rest == c@.subrange(r0 as int, t1 as int),
            forall|i: int| 0 <= i < k - r0 ==> num_char(#[trigger] rest[i]),
            digit == exists|i: int| 0 <= i < k - r0 && is_digit(#[trigger] rest[i]),
        decreases t1 - k,
    {
        let x = c[k];
        assert(rest[k - r0] == x);
        let d = char_is_digit(x);
        if !(d || x == '.' || x == ',' || x == ' ' || x == '%' || x == '$' || x == '€') {
            return false;
        }
        if d {
            digit = true;
        }
        k += 1;
    }
    assert(tr == trim(c@));
    assert(digit == has_digit(rest));
    digit
}

/// The row of the table line `s[lo..hi]` (without its carriage return).
fn parse_row(s: &[char], lo: usize, hi: usize) -> (r: Row)
    requires
        lo <= hi <= s@.len(),
    ensures
        row_view(r) == row_of(s@.subrange(lo as int, hi as int)),
{
    let (t0, t1) = trim_range(s, lo, hi);
    if is_separator_row(s, t0, t1) {
        return Row::Separator;
    }
    let ghost tr = s@.subrange(t0 as int, t1 as int);
    let a0 = if t0 < t1 && s[t0] == '|' { t0 + 1 } else { t0 };
    proof {
        if t0 < t1 {
            assert(tr[0] == s@[t0 as int]);
        }
    }
    let ghost av = s@.subrange(a0 as int, t1 as int);
    assert(av =~= if tr.len() > 0 && tr[0] == '|' { tr.drop_first() } else { tr });
    let b1 = if a0 < t1 && s[t1 - 1] == '|' { t1 - 1 } else { t1 };
    proof {
        if a0 < t1 {
            assert(av.last() == s@[t1 - 1]);
        }
    }
    assert(s@.subrange(a0 as int, b1 as int) =~= if av.len() > 0 && av.last() == '|' { av.drop_last() } else { av });
    let pieces = split_ranges(s, a0, b1, '|');
    let ghost pv = ranges_view(s@, pieces@);
    let mut cells: Vec<Vec<char>> = Vec::new();
    let mut i: usize = 0;
    while i < pieces.len()
        invariant
            i <= pieces@.len(),
            pv == ranges_view(s@, pieces@),
            forall|j: int| 0 <= j < pieces@.len() ==> (#[trigger] pieces@[j]).0 <= pieces@[j].1 <= s@.len(),
            cells_view(cells@) == pv.take(i as int).map_values(|c: Seq<char>| trim(c)),
        decreases pieces.len() - i,
    {
        let (p0, p1) = pieces[i];
        let (c0, c1) = trim_range(s, p0, p1);
        assert(pv[i as int] == s@.subrange(p0 as int, p1 as int));
        let ghost before = cells_view(cells@);
        cells.push(copy_range(s, c0, c1));
        assert(cells_view(cells@) =~= before.push(s@.subrange(c0 as int, c1 as int)));
        assert(pv.take(i + 1).map_values(|c: Seq<char>| trim(c)) =~= pv.take(i as int).map_values(|c: Seq<char>| trim(c)).push(trim(pv[i as int])));
        i += 1;
    }
    assert(pv.take(pieces@.len() as int) =~= pv);
    Row::Data(cells)
}


proof fn lemma_col_width_ge(rows: Seq<RowView>, j: int, m: int, i: int)
    requires
        0 <= i < m <= rows.len(),
        rows[i] matches RowView::Data(c) && 0 <= j < c.len(),
    ensures
        rows[i] matches RowView::Data(c) ==> col_width(rows, j, m) >= display_width(c[j]),
    decreases m,
{
    if i < m - 1 {
        lemma_col_width_ge(rows, j, m - 1, i);
    }
}

fn push_n(v: &mut Vec<char>, c: char, n: usize)
    ensures
        final(v)@ == old(v)@ + repeat_char(c, n as int),
{
    let mut k: usize = 0;
    while k < n
        invariant
            k <= n,
            v@ == old(v)@ + repeat_char(c, k as int),
        decreases n - k,
    {
        v.push(c);
        assert(old(v)@ + repeat_char(c, k + 1) =~= old(v)@ + repeat_char(c, k as int) + seq![c]);
        k += 1;
    }
}

/// The table, formatted; `None` when it has no data row.
fn format_table(rows: &Vec<Row>) -> (r: Option<Vec<char>>)
    ensures
        match r {
            Some(v) => format_spec(rows_view(rows@)) == Some(v@),
            None => format_spec(rows_view(rows@)) is None,
        },
{
    let ghost rv = rows_view(rows@);
    let nrows = rows.len();
    // Number of columns.
    let mut ncols: Option<usize> = None;
    let mut m: usize = 0;
    while m < nrows
        invariant
            m <= nrows == rows@.len() == rv.len(),
            rv == rows_view(rows@),
            match ncols { Some(x) => max_cols(rv, m as int) == Some(x as nat), None => max_cols(rv, m as int) is None },
        decreases nrows - m,
    {
        assert(rv[m as int] == row_view(rows@[m as int]));
        match &rows[m] {
            Row::Data(c) => {
                let l = c.len();
                ncols = match ncols {
                    Some(p) => Some(if l > p { l } else { p }),
                    None => Some(l),
                };
            },
            Row::Separator => {},
        }
        m += 1;
    }
    let n = match ncols {
        Some(x) => x,
        None => {
            return None;
        },
    };
    // Column widths.
    let mut widths: Vec<usize> = Vec::new();
    let mut j: usize = 0;
    while j < n
        invariant
            j <= n,
            widths@.len() == j,
            forall|jj: int| 0 <= jj < j ==> (#[trigger] widths@[jj]) as nat == col_width(rv, jj, 0),
        decreases n - j,
    {
        widths.push(1);
        j += 1;
    }
    let mut m: usize = 0;
    while m < nrows
        invariant
            m <= nrows == rows@.len() == rv.len(),
            rv == rows_view(rows@),
            widths@.len() == n,
            forall|jj: int| 0 <= jj < n ==> (#[trigger] widths@[jj]) as nat == col_width(rv, jj, m as int),
        decreases nrows - m,
    {
        assert(rv[m as int] == row_view(rows@[m as int]));
        match &rows[m] {
            Row::Data(c) => {
                let mut j: usize = 0;
                while j < n
                    invariant
                        j <= n,
                        m < rv.len(),
                        rv[m as int] == RowView::Data(cells_view(c@)),
                        widths@.len() == n,
                        forall|jj: int| 0 <= jj < j ==> (#[trigger] widths@[jj]) as nat == col_width(rv, jj, m + 1),
                        forall|jj: int| j <= jj < n ==> (#[trigger] widths@[jj]) as nat == col_width(rv, jj, m as int),
                    decreases n - j,
                {
                    if j < c.len() {
                        let w = text_width(c[j].as_slice());
                        assert(cells_view(c@)[j as int] == c@[j as int]@);
                        if w > widths[j] {
                            widths.set(j, w);
                        }
                    }
                    j += 1;
                }
            },
            Row::Separator => {},
        }
        m += 1;
    }
    // Right-aligned columns.
    let mut numeric: Vec<bool> = Vec::new();
    let mut j: usize = 0;
    while j < n
        invariant
            j <= n,
            nrows == rows@.len() == rv.len(),
            rv == rows_view(rows@),
            numeric@.len() == j,
            forall|jj: int| 0 <= jj < j ==> (#[trigger] numeric@[jj]) == numeric_col(rv, jj),
        decreases n - j,
    {
        let mut all = true;
        let mut some = false;
        let mut m: usize = 0;
        while m < nrows
            invariant
                m <= nrows == rows@.len() == rv.len(),
                rv == rows_view(rows@),
                (all, some) == col_numbers(rv, j as int, m as int),
            decreases nrows - m,
        {
            assert(rv[m as int] == row_view(rows@[m as int]));
            let header = m + 1 < nrows && match &rows[m + 1] {
                Row::Separator => true,
                _ => false,
            };
            proof {
                if m + 1 < nrows {
                    assert(rv[m + 1] == row_view(rows@[m + 1]));
                }
            }
            if !header {
                match &rows[m] {
                    Row::Data(c) => {
                        if j < c.len() && c[j].len() > 0 {
                            assert(cells_view(c@)[j as int] == c@[j as int]@);
                            if is_numeric(c[j].as_slice()) {
                                some = true;
                            } else {
                                all = false;
                            }
                        }
                    },
                    Row::Separator => {},
                }
            }
            m += 1;
        }
        numeric.push(all && some);
        j += 1;
    }
    // Output.
    let mut out: Vec<char> = Vec::new();
    let mut m: usize = 0;
    while m < nrows
        invariant
            m <= nrows == rows@.len() == rv.len(),
            rv == rows_view(rows@),
            max_cols(rv, rv.len() as int) == Some(n as nat),
            widths@.len() == n,
            numeric@.len() == n,
            forall|jj: int| 0 <= jj < n ==> (#[trigger] widths@[jj]) as nat == col_width(rv, jj, rv.len() as int),
            forall|jj: int| 0 <= jj < n ==> (#[trigger] numeric@[jj]) == numeric_col(rv, jj),
            out@ == render_rows(rv, n as int, m as int),
        decreases nrows - m,
    {
        assert(rv[m as int] == row_view(rows@[m as int]));
        let ghost base = out@;
        match &rows[m] {
            Row::Separator => {
                out.push('|');
                let mut j: usize = 0;
                while j < n
                    invariant
                        j <= n,
                        widths@.len() == n,
                        forall|jj: int| 0 <= jj < n ==> (#[trigger] widths@[jj]) as nat == col_width(rv, jj, rv.len() as int),
                        out@ == base + seq!['|'] + sep_cols(rv, n as int, j as int),
                    decreases n - j,
                {
                    out.push('-');
                    push_n(&mut out, '-', widths[j]);
                    out.push('-');
                    if j + 1 < n {
                        out.push('+');
                    }
                    assert(out@ =~= base + seq!['|'] + sep_cols(rv, n as int, j + 1));
                    j += 1;
                }
                out.push('|');
                out.push('\n');
                assert(out@ =~= base + render_row(rv, n as int, rv[m as int]));
            },
            Row::Data(c) => {
                out.push('|');
                let ghost cv = cells_view(c@);
                let mut j: usize = 0;
                while j < n
                    invariant
                        j <= n,
                        m < rv.len(),
                        rv[m as int] == RowView::Data(cv),
                        cv == cells_view(c@),
                        widths@.len() == n,
                        numeric@.len() == n,
                        forall|jj: int| 0 <= jj < n ==> (#[trigger] widths@[jj]) as nat == col_width(rv, jj, rv.len() as int),
                        forall|jj: int| 0 <= jj < n ==> (#[trigger] numeric@[jj]) == numeric_col(rv, jj),
                        out@ == base + seq!['|'] + data_cols(rv, cv, j as int),
                    decreases n - j,
                {
                    let empty: Vec<char> = Vec::new();
                    let cell: &[char] = if j < c.len() { c[j].as_slice() } else { empty.as_slice() };
                    proof {
                        if j < c@.len() {
                            assert(cv[j as int] == c@[j as int]@);
                            lemma_col_width_ge(rv, j as int, rv.len() as int, m as int);
                        }
                    }
                    assert(cell@ == cell_at(cv, j as int));
                    let dw = text_width(cell);
                    let pad = widths[j] - dw;
                    out.push(' ');
                    if numeric[j] {
                        push_n(&mut out, ' ', pad);
                        push_all(&mut out, cell);
                    } else {
                        push_all(&mut out, cell);
                        push_n(&mut out, ' ', pad);
                    }
                    out.push(' ');
                    out.push('|');
                    assert(out@ =~= base + seq!['|'] + data_cols(rv, cv, j + 1));
                    j += 1;
                }
                out.push('\n');
                assert(out@ =~= base + render_row(rv, n as int, rv[m as int]));
            },
        }
        m += 1;
    }
    Some(out)
}


fn is_table_line(s: &[char], lines: &Vec<(usize, usize)>, i: usize) -> (b: bool)
    requires
        i < lines@.len() == line_spans(s@).len(),
        forall|j: int| 0 <= j < lines@.len() ==> (#[trigger] lines@[j]).0 as int == line_spans(s@)[j].0 && lines@[j].1 as int == line_spans(s@)[j].1,
        forall|j: int| 0 <= j < lines@.len() ==> (#[trigger] lines@[j]).0 <= lines@[j].1 <= s@.len(),
    ensures
        b == table_line(s@, line_spans(s@), i as int),
{
    let (a, e) = lines[i];
    let e1 = strip_cr_end(s, a, e);
    let k = skip_ws(s, a, e1);
    if k < e1 {
        assert(s@.subrange(k as int, e1 as int)[0] == s@[k as int]);
    }
    k < e1 && s[k] == '|'
}

impl FormatRule for TableFormatter {
    fn id(&self) -> (r: &'static str)
        ensures
            r@ == "F004"@,
    {
        "F004"
    }

    fn name(&self) -> (r: &'static str)
        ensures
            r@ == "table-format"@,
    {
        "table-format"
    }

    fn description(&self) -> (r: &'static str)
        ensures
            r@ == "Align table columns and normalize separators"@,
    {
        "Align table columns and normalize separators"
    }

    fn format(&self, ctx: &FormatContext) -> (r: Vec<Fix>)
        ensures
            fixes_view(r@) == table_fixes(ctx.source.text(), tables_from(ctx.source.text(), line_spans(ctx.source.text()), 0).len() as int),
    {
        let s = ctx.source.chars();
        let lines = line_ranges(s);
        let ghost t = s@;
        let ghost spans = line_spans(t);
        let ghost all = tables_from(t, spans, 0);
        let n = lines.len();
        let mut out: Vec<Fix> = Vec::new();
        let ghost mut tk: int = 0;
        let mut i: usize = 0;
        assert(all.take(0) + tables_from(t, spans, 0) =~= all);
        while i < n
            invariant
                i <= n == lines@.len() == spans.len(),
                t == s@,
                t == ctx.source.text(),
                spans == line_spans(t),
                all == tables_from(t, spans, 0),
                forall|j: int| 0 <= j < lines@.len() ==> (#[trigger] lines@[j]).0 as int == spans[j].0 && lines@[j].1 as int == spans[j].1,
                forall|j: int| 0 <= j < lines@.len() ==> (#[trigger] lines@[j]).0 <= lines@[j].1 <= s@.len(),
                0 <= tk <= all.len(),
                all.take(tk) + tables_from(t, spans, i as int) == all,
                fixes_view(out@) == table_fixes(t, tk),
            decreases n - i,
        {
            if is_table_line(s, &lines, i) {
                let a = i;
                let mut rows: Vec<Row> = Vec::new();
                while i < n && is_table_line(s, &lines, i)
                    invariant
                        a <= i <= n == lines@.len() == spans.len(),
                        t == s@,
                        spans == line_spans(t),
                        forall|j: int| 0 <= j < lines@.len() ==> (#[trigger] lines@[j]).0 as int == spans[j].0 && lines@[j].1 as int == spans[j].1,
                        forall|j: int| 0 <= j < lines@.len() ==> (#[trigger] lines@[j]).0 <= lines@[j].1 <= s@.len(),
                        table_end(t, spans, a as int) == table_end(t, spans, i as int),
                        rows_view(rows@) =~= table_rows(t, spans, a as int, i as int),
                    decreases n - i,
                {
                    let (b0, b1) = lines[i];
                    let b2 = strip_cr_end(s, b0, b1);
                    let ghost before = rows_view(rows@);
                    rows.push(parse_row(s, b0, b2));
                    assert(rows_view(rows@) =~= before.push(row_of(strip_cr(t.subrange(spans[i as int].0, spans[i as int].1)))));
                    i += 1;
                }
                let e = i;
                proof {
                    assert(table_end(t, spans, a as int) == e);
                    assert(tables_from(t, spans, a as int) == seq![(a as int, e as int)] + tables_from(t, spans, e as int));
                    assert(all[tk] == (a as int, e as int));
                    assert(all.take(tk + 1) + tables_from(t, spans, e as int) =~= all);
                }
                let start = lines[a].0;
                let end = if e < n { lines[e].0 } else { s.len() };
                proof {
                    crate::lines::lemma_line_spans_from(t, 0);
                }
                match format_table(&rows) {
                    Some(f) => {
                        assert(start <= end) by {
                            if e < n {
                                crate::lines::lemma_spans_ordered(t, a as int, e as int);
                            }
                        };
                        if !seq_eq(f.as_slice(), &s[start..end]) {
                            push_fix(&mut out, start, end, string_from(f.as_slice()));
                        }
                    },
                    None => {},
                }
                proof {
                    tk = tk + 1;
                }
            } else {
                proof {
                    assert(tables_from(t, spans, i as int) == tables_from(t, spans, i + 1));
                }
                i += 1;
            }
        }
        proof {
            assert(all.take(tk) =~= all);
        }
        out
    }
}


/// Whether `s` is one or more decimal digits.
pub open spec fn digit_run(s: Seq<char>) -> bool {
    s.len() > 0 && forall|i: int| 0 <= i < s.len() ==> is_digit(#[trigger] s[i])
}

/// Whether `s` splits at position `k` into digits, `.` and digits.
pub open spec fn dot_split(s: Seq<char>, k: int) -> bool {
    0 < k < s.len() && s[k] == '.' && digit_run(s.take(k)) && digit_run(s.skip(k + 1))
}

/// Whether `s` is a decimal number: digits, optionally with a fractional
/// part after a `.`, and an optional leading sign.
pub open spec fn signed_decimal(s: Seq<char>) -> bool {
    let body = if s.len() > 0 && (s[0] == '-' || s[0] == '+') { s.drop_first() } else { s };
    digit_run(body) || exists|k: int| #[trigger] dot_split(body, k)
}

proof fn lemma_decimal_chars(d: Seq<char>)
    requires
        digit_run(d) || exists|k: int| #[trigger] dot_split(d, k),
    ensures
        d.len() > 0,
        is_digit(d[0]),
        is_digit(d.last()),
        has_digit(d),
        all_num(d),
{
    if !digit_run(d) {
        let k = choose|k: int| #[trigger] dot_split(d, k);
        assert forall|i: int| 0 <= i < d.len() implies num_char(#[trigger] d[i]) by {
            if i < k {
                assert(d.take(k)[i] == d[i]);
            } else if i > k {
                assert(d.skip(k + 1)[i - k - 1] == d[i]);
            }
        }
        assert(d.take(k)[0] == d[0]);
        assert(d.skip(k + 1)[d.len() - k - 2] == d.last());
    }
    assert(is_digit(d[0]));
}

/// A cell holding a decimal number, such as `1.5`, `-3` or `+0.25`, reads
/// as a number.
pub proof fn lemma_decimal_numeric(s: Seq<char>)
    requires
        signed_decimal(s),
    ensures
        numeric_cell(s),
{
    let body = if s.len() > 0 && (s[0] == '-' || s[0] == '+') { s.drop_first() } else { s };
    lemma_decimal_chars(body);
    assert(s.last() == body.last());
    crate::text::lemma_lead_ws_at(s, 0);
    assert(crate::text::trim_start(s) =~= s);
    crate::text::lemma_trail_ws_at(s, s.len() as int);
    assert(trim(s) =~= s);
}

/// Whether row `q` is a data row, not a header, with a non-empty cell `j`.
pub open spec fn filled(rows: Seq<RowView>, j: int, q: int) -> bool {
    &&& !header_row(rows, q)
    &&& rows[q] matches RowView::Data(c) && 0 <= j < c.len() && c[j].len() > 0
}

proof fn lemma_col_decimal(rows: Seq<RowView>, j: int, m: int)
    requires
        0 <= m <= rows.len(),
        forall|q: int| 0 <= q < rows.len() && #[trigger] filled(rows, j, q) ==> signed_decimal(rows[q]->Data_0[j]),
    ensures
        col_numbers(rows, j, m).0,
        (exists|q: int| 0 <= q < m && #[trigger] filled(rows, j, q)) ==> col_numbers(rows, j, m).1,
    decreases m,
{
    if m > 0 {
        lemma_col_decimal(rows, j, m - 1);
        if filled(rows, j, m - 1) {
            lemma_decimal_numeric(rows[m - 1]->Data_0[j]);
        }
        if exists|q: int| 0 <= q < m && #[trigger] filled(rows, j, q) {
            if !filled(rows, j, m - 1) {
                let q = choose|q: int| 0 <= q < m && #[trigger] filled(rows, j, q);
                assert(q < m - 1);
            }
        }
    }
}

/// A column whose filled cells, header rows aside, are all decimal numbers,
/// with at least one filled, is aligned right.
pub proof fn lemma_decimal_column_right(rows: Seq<RowView>, j: int)
    requires
        forall|q: int| 0 <= q < rows.len() && #[trigger] filled(rows, j, q) ==> signed_decimal(rows[q]->Data_0[j]),
        exists|q: int| 0 <= q < rows.len() && #[trigger] filled(rows, j, q),
    ensures
        numeric_col(rows, j),
{
    lemma_col_decimal(rows, j, rows.len() as int);
}

} // verus!
