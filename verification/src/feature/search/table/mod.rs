//! Laying out tables for the terminal: columns sized by ratios of the
//! terminal's width, cell text wrapped by display width and padded.
use vstd::prelude::*;

use crate::text::{from_chars, push_char};

pub mod md_records;
pub mod section_records;

verus! {

/// The display width of a string in terminal columns, as
/// `unicode_width::UnicodeWidthStr::width` gives it.
pub uninterp spec fn display_width(s: Seq<char>) -> usize;

/// The display width of `s` (`UnicodeWidthStr::width`).
/// Trusted: the result is `display_width` of the argument; nothing more is
/// stated of that width.
#[verifier::external_body]
pub(crate) fn str_width(s: &str) -> (w: usize)
    ensures
        w == display_width(s@),
{
    unicode_width::UnicodeWidthStr::width(s)
}

/// The display width of one character, measured as a one-character string.
pub open spec fn char_width(c: char) -> int {
    display_width(seq![c]) as int
}

/// The wrapped lines of `text` read on from a line holding `cur` of width `cur_w`:
/// a character that would take the line past `width` starts a new one.
pub open spec fn wrap_from(text: Seq<char>, width: int, cur: Seq<char>, cur_w: int) -> Seq<Seq<char>>
    decreases text.len(),
{
    if text.len() == 0 {
        if cur.len() > 0 {
            seq![cur]
        } else {
            seq![]
        }
    } else if cur_w + char_width(text[0]) > width {
        seq![cur] + wrap_from(text.drop_first(), width, seq![text[0]], char_width(text[0]))
    } else {
        wrap_from(text.drop_first(), width, cur.push(text[0]), cur_w + char_width(text[0]))
    }
}

/// `text` wrapped to lines of at most `width` columns (no lines for width zero).
pub open spec fn wrap_text(text: Seq<char>, width: int) -> Seq<Seq<char>> {
    if width == 0 {
        seq![]
    } else {
        wrap_from(text, width, seq![], 0)
    }
}

/// `n` spaces.
pub open spec fn spaces(n: int) -> Seq<char> {
    Seq::new(n as nat, |i: int| ' ')
}

/// `s` padded with spaces to `width` columns (unchanged when already as wide).
pub open spec fn pad(s: Seq<char>, width: int) -> Seq<char> {
    if display_width(s) >= width {
        s
    } else {
        s + spaces(width - display_width(s))
    }
}

/// `text` wrapped to lines of at most `width` columns.
pub fn wrap(text: &[char], width: usize) -> (r: Vec<Vec<char>>)
    ensures
        crate::text::chars_views(r@) == wrap_text(text@, width as int),
{
    let mut out: Vec<Vec<char>> = Vec::new();
    if width == 0 {
        assert(crate::text::chars_views(out@) =~= Seq::<Seq<char>>::empty());
        return out;
    }
    let mut cur: Vec<char> = Vec::new();
    let mut cw: usize = 0;
    let mut i: usize = 0;
    assert(text@.skip(0) =~= text@);
    assert(crate::text::chars_views(out@) + wrap_from(text@, width as int, cur@, 0) =~= wrap_text(text@, width as int));
    while i < text.len()
        invariant
            i <= text.len(),
            width > 0,
            wrap_text(text@, width as int) == crate::text::chars_views(out@) + wrap_from(
                text@.skip(i as int),
                width as int,
                cur@,
                cw as int,
            ),
        decreases text.len() - i,
    {
        let c = text[i];
        let mut one = String::new();
        push_char(&mut one, c);
        assert(one@ =~= seq![c]);
        let w = str_width(one.as_str());
        assert(text@.skip(i as int).drop_first() =~= text@.skip(i + 1));
        assert(text@.skip(i as int)[0] == c);
        let over = cw > width || w > width - cw;
        let ghost before = crate::text::chars_views(out@);
        if over {
            let ghost old_cur = cur@;
            out.push(cur);
            cur = Vec::new();
            cur.push(c);
            assert(cur@ =~= seq![c]);
            cw = w;
            assert(crate::text::chars_views(out@) =~= before.push(old_cur));
            assert(before + (seq![old_cur] + wrap_from(text@.skip(i + 1), width as int, cur@, cw as int))
                =~= before.push(old_cur) + wrap_from(text@.skip(i + 1), width as int, cur@, cw as int));
        } else {
            cur.push(c);
            cw = cw + w;
        }
        i = i + 1;
    }
    let ghost before = crate::text::chars_views(out@);
    if cur.len() > 0 {
        out.push(cur);
        assert(crate::text::chars_views(out@) =~= before + wrap_from(text@.skip(i as int), width as int, cur@, cw as int));
    } else {
        assert(crate::text::chars_views(out@) =~= before + wrap_from(text@.skip(i as int), width as int, cur@, cw as int));
    }
    out
}

/// `s` padded with spaces to `width` columns.
pub fn pad_display_width(s: &[char], width: usize) -> (r: Vec<char>)
    ensures
        r@ == pad(s@, width as int),
{
    let st = from_chars(s);
    let dw = str_width(st.as_str());
    let mut out: Vec<char> = Vec::new();
    crate::text::extend(&mut out, s);
    if dw >= width {
        return out;
    }
    let n = width - dw;
    let mut k: usize = 0;
    while k < n
        invariant
            k <= n,
            out@ == s@ + spaces(k as int),
        decreases n - k,
    {
        out.push(' ');
        k = k + 1;
        assert(out@ =~= s@ + spaces(k as int));
    }
    out
}

// ---------------------------------------------------------------------------
// Tables
// ---------------------------------------------------------------------------

/// How a cell is shown.
#[derive(Debug, Clone, Copy, PartialEq, Eq, Structural)]
pub enum CellStyle {
    /// A header cell.
    Header,
    /// A cell of the first column.
    Index,
    /// A cell of the second column.
    Kind,
    /// A cell of any other column.
    Body,
}

/// One cell of one printed line.
pub struct Cell {
    pub text: String,
    pub style: CellStyle,
}

/// One printed line of a table.
pub enum TableLine {
    /// An empty line.
    Blank,
    /// A rule of this many dashes.
    Rule(usize),
    /// The cells of one line, separated by ` | ` when printed.
    Row(Vec<Cell>),
}

/// The contents of a [`Cell`].
pub struct CellView {
    pub text: Seq<char>,
    pub style: CellStyle,
}

/// The contents of a [`TableLine`].
pub enum TableLineView {
    Blank,
    Rule(int),
    Row(Seq<CellView>),
}

impl DeepView for Cell {
    type V = CellView;

    open spec fn deep_view(&self) -> CellView {
        CellView { text: self.text@, style: self.style }
    }
}

impl DeepView for TableLine {
    type V = TableLineView;

    open spec fn deep_view(&self) -> TableLineView {
        match self {
            TableLine::Blank => TableLineView::Blank,
            TableLine::Rule(n) => TableLineView::Rule(*n as int),
            TableLine::Row(cells) => TableLineView::Row(cells.deep_view()),
        }
    }
}

/// The sum of the ratios.
pub open spec fn ratio_sum(r: Seq<usize>) -> int
    decreases r.len(),
{
    if r.len() == 0 {
        0
    } else {
        ratio_sum(r.drop_last()) + r.last()
    }
}

/// The width of the separators between `n` columns.
pub open spec fn separators(n: int) -> int {
    3 * (n - 1)
}

/// The column widths: the terminal width less the separators, shared out by
/// the ratios (rounded down).
pub open spec fn column_widths(term_width: int, ncols: int, ratios: Seq<usize>) -> Seq<int> {
    Seq::new(ratios.len(), |i: int| ((term_width - separators(ncols)) * ratios[i]) / ratio_sum(ratios))
}

/// The wrapped text of each cell that has a column width.
pub open spec fn wrapped_cells(cols: Seq<Seq<char>>, widths: Seq<int>) -> Seq<Seq<Seq<char>>> {
    let n = if cols.len() <= widths.len() {
        cols.len()
    } else {
        widths.len()
    };
    Seq::new(n as nat, |c: int| wrap_text(cols[c], widths[c]))
}

/// The largest number of lines of a wrapped cell (zero when there are none).
pub open spec fn max_len(w: Seq<Seq<Seq<char>>>) -> int
    decreases w.len(),
{
    if w.len() == 0 {
        0
    } else if max_len(w.drop_last()) >= w.last().len() {
        max_len(w.drop_last())
    } else {
        w.last().len() as int
    }
}

/// The number of printed lines of one table row: the most lines of any of
/// its cells, one when it has no cells.
pub open spec fn row_height(w: Seq<Seq<Seq<char>>>) -> int {
    if w.len() == 0 {
        1
    } else {
        max_len(w)
    }
}

/// Line `i` of a wrapped cell, empty past its end.
pub open spec fn cell_line(lines: Seq<Seq<char>>, i: int) -> Seq<char> {
    if i < lines.len() {
        lines[i]
    } else {
        seq![]
    }
}

/// The style of the cells of column `c`.
pub open spec fn style_for(header: bool, c: int) -> CellStyle {
    if header {
        CellStyle::Header
    } else if c == 0 {
        CellStyle::Index
    } else if c == 1 {
        CellStyle::Kind
    } else {
        CellStyle::Body
    }
}

/// The printed lines of one table row.
pub open spec fn block_lines(cols: Seq<Seq<char>>, widths: Seq<int>, header: bool) -> Seq<TableLineView> {
    let w = wrapped_cells(cols, widths);
    Seq::new(
        row_height(w) as nat,
        |i: int|
            TableLineView::Row(
                Seq::new(
                    w.len(),
                    |c: int| CellView { text: pad(cell_line(w[c], i), widths[c]), style: style_for(header, c) },
                ),
            ),
    )
}

/// The printed lines of the table rows.
pub open spec fn rows_lines(rows: Seq<Seq<Seq<char>>>, widths: Seq<int>) -> Seq<TableLineView>
    decreases rows.len(),
{
    if rows.len() == 0 {
        seq![]
    } else {
        rows_lines(rows.drop_last(), widths) + block_lines(rows.last(), widths, false)
    }
}

/// The printed lines of a table: an empty line, the header, a rule as wide as
/// the terminal, then the rows.
pub open spec fn table_lines(
    headers: Seq<Seq<char>>,
    rows: Seq<Seq<Seq<char>>>,
    ratios: Seq<usize>,
    term_width: int,
) -> Seq<TableLineView> {
    let widths = column_widths(term_width, headers.len() as int, ratios);
    seq![TableLineView::Blank] + block_lines(headers, widths, true) + seq![TableLineView::Rule(term_width)]
        + rows_lines(rows, widths)
}

/// Numbers as mathematical integers.
pub open spec fn ints(v: Seq<usize>) -> Seq<int> {
    Seq::new(v.len(), |i: int| v[i] as int)
}

/// The largest number of lines among the first `k` wrapped cells.
proof fn lemma_max_len_step(w: Seq<Seq<Seq<char>>>, k: int)
    requires
        0 < k <= w.len(),
    ensures
        max_len(w.take(k)) == if max_len(w.take(k - 1)) >= w[k - 1].len() {
            max_len(w.take(k - 1))
        } else {
            w[k - 1].len() as int
        },
        max_len(w.take(k)) >= 0,
{
    assert(w.take(k).drop_last() =~= w.take(k - 1));
    lemma_max_len_nonneg(w.take(k - 1));
}

proof fn lemma_max_len_nonneg(w: Seq<Seq<Seq<char>>>)
    ensures
        max_len(w) >= 0,
    decreases w.len(),
{
    if w.len() > 0 {
        lemma_max_len_nonneg(w.drop_last());
    }
}

/// The printed lines of one table row whose cells are `cols`.
fn block(cols: &Vec<String>, widths: &Vec<usize>, header: bool) -> (r: Vec<TableLine>)
    ensures
        r.deep_view() == block_lines(cols.deep_view(), ints(widths@), header),
{
    let ghost cv = cols.deep_view();
    let ghost wv = ints(widths@);
    let n = if cols.len() <= widths.len() {
        cols.len()
    } else {
        widths.len()
    };
    let ghost spec_w = wrapped_cells(cv, wv);
    let mut wrapped: Vec<Vec<Vec<char>>> = Vec::new();
    let mut height: usize = 0;
    let mut c: usize = 0;
    assert(spec_w.take(0) =~= Seq::<Seq<Seq<char>>>::empty());
    while c < n
        invariant
            c <= n,
            n == spec_w.len(),
            n <= cols.len(),
            n <= widths.len(),
            cv == cols.deep_view(),
            wv == ints(widths@),
            spec_w == wrapped_cells(cv, wv),
            wrapped.len() == c,
            forall|k: int| 0 <= k < c ==> #[trigger] crate::text::chars_views(wrapped@[k]@) == spec_w[k],
            height as int == max_len(spec_w.take(c as int)),
        decreases n - c,
    {
        let text = crate::text::to_chars(cols[c].as_str());
        let lines = wrap(&text, widths[c]);
        assert(spec_w[c as int] == wrap_text(cv[c as int], wv[c as int]));
        proof {
            lemma_max_len_step(spec_w, c + 1);
        }
        if lines.len() > height {
            height = lines.len();
        }
        wrapped.push(lines);
        c = c + 1;
    }
    assert(spec_w.take(n as int) =~= spec_w);
    if n == 0 {
        height = 1;
    }
    assert(height as int == row_height(spec_w));
    let ghost spec_lines = block_lines(cv, wv, header);
    let mut out: Vec<TableLine> = Vec::new();
    let mut i: usize = 0;
    while i < height
        invariant
            i <= height,
            height as int == row_height(spec_w),
            n == spec_w.len(),
            n <= widths.len(),
            wrapped.len() == n,
            wv == ints(widths@),
            spec_w == wrapped_cells(cv, wv),
            forall|k: int| 0 <= k < n ==> #[trigger] crate::text::chars_views(wrapped@[k]@) == spec_w[k],
            spec_lines == block_lines(cv, wv, header),
            out.len() == i,
            forall|k: int| 0 <= k < i ==> #[trigger] out.deep_view()[k] == spec_lines[k],
        decreases height - i,
    {
        let mut cells: Vec<Cell> = Vec::new();
        let mut col: usize = 0;
        while col < n
            invariant
                col <= n,
                i < height,
                n == spec_w.len(),
                n <= widths.len(),
                wrapped.len() == n,
                wv == ints(widths@),
                forall|k: int| 0 <= k < n ==> #[trigger] crate::text::chars_views(wrapped@[k]@) == spec_w[k],
                cells.len() == col,
                forall|k: int|
                    0 <= k < col ==> #[trigger] cells.deep_view()[k] == (CellView {
                        text: pad(cell_line(spec_w[k], i as int), wv[k]),
                        style: style_for(header, k),
                    }),
            decreases n - col,
        {
            assert(crate::text::chars_views(wrapped@[col as int]@) == spec_w[col as int]);
            let raw: Vec<char> = if i < wrapped[col].len() {
                let mut v: Vec<char> = Vec::new();
                crate::text::extend(&mut v, &wrapped[col][i]);
                assert(crate::text::chars_views(wrapped@[col as int]@)[i as int] == wrapped@[col as int]@[i as int]@);
                v
            } else {
                Vec::new()
            };
            assert(raw@ =~= cell_line(spec_w[col as int], i as int));
            let padded = pad_display_width(&raw, widths[col]);
            let style = if header {
                CellStyle::Header
            } else if col == 0 {
                CellStyle::Index
            } else if col == 1 {
                CellStyle::Kind
            } else {
                CellStyle::Body
            };
            let ghost before = cells.deep_view();
            let cell = Cell { text: from_chars(&padded), style };
            cells.push(cell);
            assert(cells.deep_view() =~= before.push(cell.deep_view()));
            col = col + 1;
        }
        let ghost before = out.deep_view();
        let line = TableLine::Row(cells);
        assert(spec_lines[i as int] == TableLineView::Row(
            Seq::new(
                spec_w.len(),
                |c: int| CellView { text: pad(cell_line(spec_w[c], i as int), wv[c]), style: style_for(header, c) },
            ),
        ));
        assert(line.deep_view() == spec_lines[i as int]) by {
            if let TableLine::Row(cs) = line {
                assert(cs.deep_view() =~= Seq::new(
                    spec_w.len(),
                    |c: int| CellView { text: pad(cell_line(spec_w[c], i as int), wv[c]), style: style_for(header, c) },
                ));
            }
        }
        out.push(line);
        assert(out.deep_view() =~= before.push(line.deep_view()));
        i = i + 1;
    }
    assert(out.deep_view() =~= spec_lines);
    out
}


proof fn lemma_ratio_sum_prefix(r: Seq<usize>, i: int)
    requires
        0 <= i <= r.len(),
    ensures
        0 <= ratio_sum(r.take(i)) <= ratio_sum(r),
    decreases r.len(),
{
    if i < r.len() {
        lemma_ratio_sum_prefix(r.drop_last(), i);
        assert(r.drop_last().take(i) =~= r.take(i));
    } else {
        assert(r.take(i) =~= r);
        lemma_ratio_sum_nonneg(r);
    }
}

proof fn lemma_ratio_sum_nonneg(r: Seq<usize>)
    ensures
        ratio_sum(r) >= 0,
    decreases r.len(),
{
    if r.len() > 0 {
        lemma_ratio_sum_nonneg(r.drop_last());
    }
}

/// The inputs on which a table can be laid out: at least one header, the
/// separators fit in the terminal, the ratios have a positive sum, and no
/// width computation overflows.
pub open spec fn table_fits(ncols: int, ratios: Seq<usize>, term_width: int) -> bool {
    &&& ncols >= 1
    &&& separators(ncols) <= term_width
    &&& 0 < ratio_sum(ratios) <= usize::MAX
    &&& forall|i: int| 0 <= i < ratios.len() ==> (term_width - separators(ncols)) * #[trigger] ratios[i] <= usize::MAX
}

/// The printed lines of a table of `headers` and `rows`, its columns sized
/// by `ratios` of the terminal width `term_width`.
pub fn print_table(headers: &Vec<String>, rows: &Vec<Vec<String>>, ratios: &Vec<usize>, term_width: usize) -> (r: Vec<TableLine>)
    requires
        table_fits(headers.len() as int, ratios@, term_width as int),
    ensures
        r.deep_view() == table_lines(headers.deep_view(), rows.deep_view(), ratios@, term_width as int),
{
    let col_count = headers.len();
    let sep_width = 3 * (col_count - 1);
    let mut total: usize = 0;
    let mut i: usize = 0;
    while i < ratios.len()
        invariant
            i <= ratios.len(),
            total as int == ratio_sum(ratios@.take(i as int)),
            ratio_sum(ratios@) <= usize::MAX,
        decreases ratios.len() - i,
    {
        proof {
            lemma_ratio_sum_prefix(ratios@, i + 1);
            assert(ratios@.take(i + 1).drop_last() =~= ratios@.take(i as int));
        }
        total = total + ratios[i];
        i = i + 1;
    }
    assert(ratios@.take(ratios.len() as int) =~= ratios@);
    let usable = term_width - sep_width;
    let ghost widths_spec = column_widths(term_width as int, col_count as int, ratios@);
    let mut widths: Vec<usize> = Vec::new();
    let mut k: usize = 0;
    while k < ratios.len()
        invariant
            k <= ratios.len(),
            total as int == ratio_sum(ratios@),
            total > 0,
            usable as int == term_width - separators(col_count as int),
            table_fits(col_count as int, ratios@, term_width as int),
            widths_spec == column_widths(term_width as int, col_count as int, ratios@),
            widths.len() == k,
            forall|m: int| 0 <= m < k ==> #[trigger] widths@[m] as int == widths_spec[m],
        decreases ratios.len() - k,
    {
        assert(usable * ratios[k as int] <= usize::MAX);
        let w = usable * ratios[k] / total;
        widths.push(w);
        k = k + 1;
    }
    assert(ints(widths@) =~= widths_spec);
    let mut out: Vec<TableLine> = Vec::new();
    out.push(TableLine::Blank);
    let mut head = block(headers, &widths, true);
    out.append(&mut head);
    out.push(TableLine::Rule(term_width));
    let ghost prefix = out.deep_view();
    assert(prefix =~= seq![TableLineView::Blank] + block_lines(headers.deep_view(), widths_spec, true)
        + seq![TableLineView::Rule(term_width as int)]);
    let mut j: usize = 0;
    assert(rows.deep_view().take(0) =~= Seq::<Seq<Seq<char>>>::empty());
    assert(out.deep_view() =~= prefix + rows_lines(rows.deep_view().take(0), widths_spec));
    while j < rows.len()
        invariant
            j <= rows.len(),
            ints(widths@) == widths_spec,
            out.deep_view() == prefix + rows_lines(rows.deep_view().take(j as int), widths_spec),
        decreases rows.len() - j,
    {
        let ghost before = out.deep_view();
        let mut lines = block(&rows[j], &widths, false);
        let ghost bl = lines.deep_view();
        out.append(&mut lines);
        assert(out.deep_view() =~= before + bl);
        let ghost t = rows.deep_view().take(j + 1);
        assert(t.drop_last() =~= rows.deep_view().take(j as int));
        assert(t.last() == rows@[j as int].deep_view());
        assert(prefix + rows_lines(t, widths_spec) =~= before + bl);
        j = j + 1;
    }
    assert(rows.deep_view().take(rows.len() as int) =~= rows.deep_view());
    out
}


// ---------------------------------------------------------------------------
// Laws of wrapping
// ---------------------------------------------------------------------------

/// Lines put back together, in order.
pub open spec fn joined(ls: Seq<Seq<char>>) -> Seq<char>
    decreases ls.len(),
{
    if ls.len() == 0 {
        seq![]
    } else {
        ls[0] + joined(ls.drop_first())
    }
}

proof fn lemma_wrap_from_keeps_text(text: Seq<char>, width: int, cur: Seq<char>, cur_w: int)
    ensures
        joined(wrap_from(text, width, cur, cur_w)) == cur + text,
    decreases text.len(),
{
    let out = wrap_from(text, width, cur, cur_w);
    if text.len() == 0 {
        if cur.len() > 0 {
            assert(out == seq![cur]);
            assert(out.drop_first() =~= Seq::<Seq<char>>::empty());
            assert(joined(out) == out[0] + joined(out.drop_first()));
            assert(cur + Seq::<char>::empty() =~= cur);
        } else {
            assert(cur =~= Seq::<char>::empty());
        }
        assert(cur + text =~= cur);
    } else if cur_w + char_width(text[0]) > width {
        let rest = wrap_from(text.drop_first(), width, seq![text[0]], char_width(text[0]));
        lemma_wrap_from_keeps_text(text.drop_first(), width, seq![text[0]], char_width(text[0]));
        assert(out == seq![cur] + rest);
        assert((seq![cur] + rest).drop_first() =~= rest);
        assert(joined(out) == out[0] + joined(out.drop_first()));
        assert(seq![text[0]] + text.drop_first() =~= text);
        assert(cur + (seq![text[0]] + text.drop_first()) =~= cur + text);
    } else {
        lemma_wrap_from_keeps_text(text.drop_first(), width, cur.push(text[0]), cur_w + char_width(text[0]));
        assert(cur.push(text[0]) + text.drop_first() =~= cur + text);
    }
}

/// Wrapping loses and reorders nothing: the wrapped lines put back together
/// are the text (for a positive width).
pub proof fn law_wrap_keeps_text(text: Seq<char>, width: int)
    requires
        width > 0,
    ensures
        joined(wrap_text(text, width)) == text,
{
    lemma_wrap_from_keeps_text(text, width, seq![], 0);
    assert(Seq::<char>::empty() + text =~= text);
}

/// Padding keeps the text and only adds spaces after it.
pub proof fn law_pad_extends(s: Seq<char>, width: int)
    ensures
        pad(s, width).subrange(0, s.len() as int) == s,
        forall|i: int| s.len() <= i < pad(s, width).len() ==> #[trigger] pad(s, width)[i] == ' ',
{
    assert(pad(s, width).subrange(0, s.len() as int) =~= s);
}

} // verus!
