//! Tables in the Markdown source: finding the table under the cursor,
//! rendering cells back into aligned rows, merged cells, and the row and
//! column edits of the insert ribbon.
//!
//! A merged cell is written in the source as GFM allows it to be read back:
//! a cell covered by the cell on its left is an empty piece between two pipes
//! (`||`), and a cell covered by the cell above reads `^^`.

use crate::markdown::{
    display_width, display_width_of, is_table_separator_line, is_table_source_line, row_body, row_cells,
    separator_cell, separator_line, strip_colons, table_source_line,
};
use crate::hunks::{char_start, lemma_split_nl_piece, line_range, line_starts};
use crate::markdown::{first_line_ending_after, line_at_byte, line_ranges, line_ranges_model, split_row};
use crate::text::{prefix_bytes, byte_len, split_nl, strip_cr, string_of_range,
    chars_of, is_ws, join_strings, join_text, push_str, split_at_char, split_pieces, strings_model, trim,
    trim_end, trim_start,
};
use std::ops::Range;
use vstd::prelude::*;

verus! {

/// Alignment of a column, as the colons of the separator row give it.
#[derive(Debug, Clone, Copy, PartialEq, Eq, Structural)]
pub enum ColumnAlign {
    Auto,
    Left,
    Center,
    Right,
}

/// The alignment a separator cell asks for: a colon on the left, on the
/// right, on both sides, or none.
pub open spec fn align_of_cell(cell: Seq<char>) -> ColumnAlign {
    let t = trim(cell);
    let left = t.len() > 0 && t[0] == ':';
    let right = t.len() > 0 && t.last() == ':';
    if left && right {
        ColumnAlign::Center
    } else if left {
        ColumnAlign::Left
    } else if right {
        ColumnAlign::Right
    } else {
        ColumnAlign::Auto
    }
}

/// `n` dashes.
pub open spec fn dashes(n: nat) -> Seq<char> {
    Seq::new(n, |k: int| '-')
}

/// `n` spaces.
pub open spec fn spaces(n: nat) -> Seq<char> {
    Seq::new(n, |k: int| ' ')
}

impl ColumnAlign {
    /// Number of colons the alignment writes.
    pub open spec fn colons(self) -> nat {
        match self {
            ColumnAlign::Auto => 0,
            ColumnAlign::Left => 1,
            ColumnAlign::Right => 1,
            ColumnAlign::Center => 2,
        }
    }

    /// The separator cell of a column `width` wide; the dashes fill what the
    /// colons leave.
    pub open spec fn rendered(self, width: nat) -> Seq<char> {
        let d = dashes(if width >= self.colons() { (width - self.colons()) as nat } else { 0 });
        match self {
            ColumnAlign::Auto => d,
            ColumnAlign::Left => seq![':'] + d,
            ColumnAlign::Right => d + seq![':'],
            ColumnAlign::Center => seq![':'] + d + seq![':'],
        }
    }

    /// Read the alignment of a separator cell.
    pub fn parse(cell: &str) -> (r: ColumnAlign)
        ensures
            r == align_of_cell(cell@),
    {
        let v = chars_of(cell);
        let n = v.len();
        let (a, b) = crate::text::trim_bounds(&v, 0, n);
        assert(v@.subrange(0, n as int) =~= v@);
        let ghost t = v@.subrange(a as int, b as int);
        let left = a < b && v[a] == ':';
        let right = a < b && v[b - 1] == ':';
        proof {
            if a < b {
                assert(t[0] == v@[a as int]);
                assert(t.last() == v@[b - 1]);
            }
        }
        if left && right {
            ColumnAlign::Center
        } else if left {
            ColumnAlign::Left
        } else if right {
            ColumnAlign::Right
        } else {
            ColumnAlign::Auto
        }
    }

    /// The narrowest column the alignment fits in: three dashes besides its
    /// colons, or the separator row is no longer one.
    pub fn min_width(self) -> (r: usize)
        ensures
            r == self.colons() + 3,
    {
        match self {
            ColumnAlign::Auto => 3,
            ColumnAlign::Left => 4,
            ColumnAlign::Right => 4,
            ColumnAlign::Center => 5,
        }
    }

    /// The separator cell of a column `width` wide.
    pub fn render(self, width: usize) -> (r: String)
        ensures
            r@ == self.rendered(width as nat),
    {
        let colons: usize = match self {
            ColumnAlign::Auto => 0,
            ColumnAlign::Left => 1,
            ColumnAlign::Right => 1,
            ColumnAlign::Center => 2,
        };
        let n = if width >= colons { width - colons } else { 0 };
        let mut r = String::new();
        if self == ColumnAlign::Left || self == ColumnAlign::Center {
            r.push(':');
        }
        let ghost start = r@;
        let mut k: usize = 0;
        while k < n
            invariant
                k <= n,
                r@ == start + dashes(k as nat),
            decreases n - k,
        {
            r.push('-');
            k += 1;
            assert(r@ =~= start + dashes(k as nat));
        }
        if self == ColumnAlign::Right || self == ColumnAlign::Center {
            r.push(':');
        }
        proof {
            let d = dashes(n as nat);
            match self {
                ColumnAlign::Auto => {
                    assert(r@ =~= d);
                },
                ColumnAlign::Left => {
                    assert(r@ =~= seq![':'] + d);
                },
                ColumnAlign::Right => {
                    assert(r@ =~= d + seq![':']);
                },
                ColumnAlign::Center => {
                    assert(r@ =~= seq![':'] + d + seq![':']);
                },
            }
        }
        r
    }
}

proof fn lemma_trim_no_ws_ends(s: Seq<char>)
    requires
        s.len() > 0,
        !is_ws(s[0]),
        !is_ws(s.last()),
    ensures
        trim(s) == s,
{
    assert(trim_start(s) == s);
    assert(trim_end(s) == s);
}

proof fn lemma_strip_colons_dashes(n: nat)
    requires
        n > 0,
    ensures
        strip_colons(dashes(n)) == dashes(n),
        strip_colons(seq![':'] + dashes(n)) == dashes(n),
        strip_colons(dashes(n) + seq![':']) == dashes(n),
        strip_colons(seq![':'] + dashes(n) + seq![':']) == dashes(n),
{
    let d = dashes(n);
    assert(d[0] == '-' && d.last() == '-');
    assert((seq![':'] + d).drop_first() =~= d);
    assert((d + seq![':']).drop_last() =~= d);
    let both = seq![':'] + d + seq![':'];
    assert(both.drop_first() =~= d + seq![':']);
}

/// A column rendered at least as wide as its alignment needs gives a
/// separator cell that reads as one, with the same alignment.
pub proof fn lemma_rendered_separator(align: ColumnAlign, width: nat)
    requires
        width >= align.colons() + 3,
    ensures
        separator_cell(align.rendered(width)),
        align_of_cell(align.rendered(width)) == align,
{
    let n = (width - align.colons()) as nat;
    let d = dashes(n);
    let r = align.rendered(width);
    assert(r.len() > 0);
    assert(d[0] == '-' && d.last() == '-');
    match align {
        ColumnAlign::Auto => {
            assert(r == d);
        },
        ColumnAlign::Left => {
            assert(r == seq![':'] + d);
            assert(r.last() == '-');
        },
        ColumnAlign::Right => {
            assert(r == d + seq![':']);
            assert(r[0] == '-');
        },
        ColumnAlign::Center => {
            assert(r == seq![':'] + d + seq![':']);
        },
    }
    lemma_trim_no_ws_ends(r);
    lemma_strip_colons_dashes(n);
}

// ---------------------------------------------------------------------------
// Merged cells.

/// A merged cell: its top-left cell and how many rows and columns it covers.
#[derive(Debug, Clone, Copy, PartialEq, Eq, Structural)]
pub struct TableSpan {
    pub row: usize,
    pub column: usize,
    pub row_span: usize,
    pub column_span: usize,
}

impl TableSpan {
    /// Whether the merged cell covers cell `(r, c)`.
    pub open spec fn covers(self, r: int, c: int) -> bool {
        self.row <= r < self.row + self.row_span && self.column <= c < self.column + self.column_span
    }

    /// Whether `(row, column)` is the top-left cell, the one that holds the text.
    pub fn is_anchor(&self, row: usize, column: usize) -> (r: bool)
        ensures
            r == (self.row == row && self.column == column),
    {
        self.row == row && self.column == column
    }

    /// Whether the merged cell covers `(row, column)`.
    pub fn contains(&self, row: usize, column: usize) -> (r: bool)
        ensures
            r == self.covers(row as int, column as int),
    {
        row >= self.row && row - self.row < self.row_span && column >= self.column && column - self.column
            < self.column_span
    }
}

/// The first merged cell of `spans` that covers `(r, c)`.
pub open spec fn span_at(spans: Seq<TableSpan>, r: int, c: int) -> Option<TableSpan>
    decreases spans.len(),
{
    if spans.len() == 0 {
        None
    } else if spans[0].covers(r, c) {
        Some(spans[0])
    } else {
        span_at(spans.drop_first(), r, c)
    }
}

proof fn lemma_span_at_skip(spans: Seq<TableSpan>, r: int, c: int, k: int)
    requires
        0 <= k <= spans.len(),
        forall|t: int| 0 <= t < k ==> !(#[trigger] spans[t]).covers(r, c),
    ensures
        span_at(spans, r, c) == span_at(spans.skip(k), r, c),
    decreases k,
{
    if k > 0 {
        assert(!spans[0].covers(r, c));
        assert forall|t: int| 0 <= t < k - 1 implies !(#[trigger] spans.drop_first()[t]).covers(r, c) by {
            assert(spans.drop_first()[t] == spans[t + 1]);
        }
        lemma_span_at_skip(spans.drop_first(), r, c, k - 1);
        assert(spans.drop_first().skip(k - 1) =~= spans.skip(k));
    } else {
        assert(spans.skip(0) =~= spans);
    }
}

/// What `span_at` finds covers the cell and is one of the spans.
pub proof fn lemma_span_at_covers(spans: Seq<TableSpan>, r: int, c: int)
    ensures
        span_at(spans, r, c) matches Some(sp) ==> sp.covers(r, c) && spans.contains(sp),
        span_at(spans, r, c) is None ==> forall|t: int| 0 <= t < spans.len() ==> !(#[trigger] spans[t]).covers(r, c),
    decreases spans.len(),
{
    if spans.len() > 0 {
        lemma_span_at_covers(spans.drop_first(), r, c);
        if spans[0].covers(r, c) {
            assert(spans[0] == spans[0]);
            assert(spans.contains(spans[0]));
        } else {
            if let Some(sp) = span_at(spans, r, c) {
                let t = choose|t: int| 0 <= t < spans.drop_first().len() && spans.drop_first()[t] == sp;
                assert(spans[t + 1] == sp);
            }
            if span_at(spans, r, c) is None {
                assert forall|t: int| 0 <= t < spans.len() implies !(#[trigger] spans[t]).covers(r, c) by {
                    if t > 0 {
                        assert(spans[t] == spans.drop_first()[t - 1]);
                    }
                }
            }
        }
    }
}

/// The merged cell covering `(row, column)`, if any.
pub fn table_span_at(spans: &[TableSpan], row: usize, column: usize) -> (r: Option<TableSpan>)
    ensures
        r == span_at(spans@, row as int, column as int),
{
    let mut k: usize = 0;
    while k < spans.len()
        invariant
            k <= spans.len(),
            forall|t: int| 0 <= t < k ==> !(#[trigger] spans@[t]).covers(row as int, column as int),
        decreases spans.len() - k,
    {
        if spans[k].contains(row, column) {
            proof {
                lemma_span_at_skip(spans@, row as int, column as int, k as int);
                assert(spans@.skip(k as int)[0] == spans@[k as int]);
            }
            return Some(spans[k]);
        }
        k += 1;
    }
    proof {
        lemma_span_at_skip(spans@, row as int, column as int, spans.len() as int);
        assert(spans@.skip(spans.len() as int).len() == 0);
    }
    None
}

/// The merged cell at `(row, column)`, or the cell alone when none covers it.
pub fn effective_span(spans: &[TableSpan], row: usize, column: usize) -> (r: TableSpan)
    ensures
        r == match span_at(spans@, row as int, column as int) {
            Some(sp) => sp,
            None => TableSpan { row, column, row_span: 1, column_span: 1 },
        },
{
    match table_span_at(spans, row, column) {
        Some(sp) => sp,
        None => TableSpan { row, column, row_span: 1, column_span: 1 },
    }
}


// ---------------------------------------------------------------------------
// Rendering.

/// The cells of a table as text: one sequence of cells per row.
pub open spec fn grid_model(rows: Seq<Vec<String>>) -> Seq<Seq<Seq<char>>> {
    rows.map_values(|r: Vec<String>| strings_model(r@))
}

/// The text of cell `(i, c)`; a row shorter than the table has empty cells.
pub open spec fn cell_at(g: Seq<Seq<Seq<char>>>, i: int, c: int) -> Seq<char> {
    if 0 <= c < g[i].len() {
        g[i][c]
    } else {
        seq![]
    }
}

/// `a / b` rounded up.
pub open spec fn ceil_div(a: nat, b: nat) -> nat {
    if b == 0 {
        a
    } else {
        a / b + if a % b == 0 {
            0nat
        } else {
            1nat
        }
    }
}

/// The width cell `(i, c)` asks of its column: none for a cell a merged cell
/// covers, an equal share of its text for the top-left cell of one.
pub open spec fn cell_need(g: Seq<Seq<Seq<char>>>, spans: Seq<TableSpan>, i: int, c: int) -> nat {
    match span_at(spans, i, c) {
        Some(sp) => if sp.row == i && sp.column == c {
            ceil_div(display_width_of(cell_at(g, i, c)), sp.column_span as nat)
        } else {
            0
        },
        None => display_width_of(cell_at(g, i, c)),
    }
}

/// The largest need of column `c` over the first `k` rows.
pub open spec fn need_upto(g: Seq<Seq<Seq<char>>>, spans: Seq<TableSpan>, c: int, k: int) -> nat
    decreases k,
{
    if k <= 0 {
        0
    } else {
        let m = need_upto(g, spans, c, k - 1);
        let n = cell_need(g, spans, k - 1, c);
        if n > m {
            n
        } else {
            m
        }
    }
}

/// The width of column `c`: its widest cell, and never less than its
/// separator cell needs.
pub open spec fn column_width(g: Seq<Seq<Seq<char>>>, aligns: Seq<ColumnAlign>, spans: Seq<TableSpan>, c: int) -> nat {
    let m = need_upto(g, spans, c, g.len() as int);
    let floor = aligns[c].colons() + 3;
    if m >= floor {
        m
    } else {
        floor
    }
}

pub open spec fn widths_model(g: Seq<Seq<Seq<char>>>, aligns: Seq<ColumnAlign>, spans: Seq<TableSpan>) -> Seq<nat> {
    Seq::new(aligns.len(), |c: int| column_width(g, aligns, spans, c))
}

pub open spec fn nat_seq(v: Seq<usize>) -> Seq<nat> {
    v.map_values(|w: usize| w as nat)
}

/// `ws[lo] + ... + ws[hi - 1]`.
pub open spec fn sum_of(ws: Seq<nat>, lo: int, hi: int) -> nat
    decreases hi - lo,
{
    if hi <= lo {
        0
    } else {
        sum_of(ws, lo, hi - 1) + ws[hi - 1]
    }
}

proof fn lemma_sum_of_le(ws: Seq<nat>, lo: int, hi: int, n: int)
    requires
        0 <= lo <= hi <= n <= ws.len(),
    ensures
        sum_of(ws, lo, hi) <= sum_of(ws, 0, n),
    decreases n,
{
    if n > hi {
        lemma_sum_of_le(ws, lo, hi, n - 1);
    } else if lo > 0 {
        lemma_sum_of_shift(ws, lo, hi);
    }
}

proof fn lemma_sum_of_shift(ws: Seq<nat>, lo: int, hi: int)
    requires
        0 <= lo <= hi,
    ensures
        sum_of(ws, lo, hi) <= sum_of(ws, 0, hi),
    decreases hi - lo,
{
    if hi > lo {
        lemma_sum_of_shift(ws, lo, hi - 1);
        lemma_sum_of_mono(ws, lo, hi - 1);
    }
}

proof fn lemma_sum_of_mono(ws: Seq<nat>, lo: int, hi: int)
    requires
        0 <= lo <= hi,
    ensures
        sum_of(ws, 0, hi) >= sum_of(ws, 0, lo),
    decreases hi - lo,
{
    if hi > lo {
        lemma_sum_of_mono(ws, lo, hi - 1);
    }
}

/// The text of column `c` in the row `i`: a cell covered from the left is
/// only its closing pipe; a cell covered from above reads `^^`; every other
/// cell is padded to the width of the columns it spans.
pub open spec fn row_piece(g: Seq<Seq<Seq<char>>>, spans: Seq<TableSpan>, ws: Seq<nat>, i: int, c: int) -> Seq<char> {
    let sp = span_at(spans, i, c);
    if sp matches Some(s) && s.column != c {
        seq!['|']
    } else {
        let text = if sp matches Some(s) && s.row != i {
            seq!['^', '^']
        } else {
            cell_at(g, i, c)
        };
        let cs: int = match sp {
            Some(s) => s.column_span as int,
            None => 1,
        };
        let combined = sum_of(ws, c, c + cs) + 3 * (cs - 1);
        let w = display_width_of(text);
        seq![' '] + text + spaces(if combined >= w { (combined - w) as nat } else { 0 }) + seq![' ', '|']
    }
}

pub open spec fn row_pieces(g: Seq<Seq<Seq<char>>>, spans: Seq<TableSpan>, ws: Seq<nat>, i: int, k: int) -> Seq<char>
    decreases k,
{
    if k <= 0 {
        seq![]
    } else {
        row_pieces(g, spans, ws, i, k - 1) + row_piece(g, spans, ws, i, k - 1)
    }
}

/// Source line of row `i`.
pub open spec fn row_line(g: Seq<Seq<Seq<char>>>, spans: Seq<TableSpan>, ws: Seq<nat>, i: int) -> Seq<char> {
    seq!['|'] + row_pieces(g, spans, ws, i, ws.len() as int)
}

pub open spec fn separator_pieces(aligns: Seq<ColumnAlign>, ws: Seq<nat>, k: int) -> Seq<char>
    decreases k,
{
    if k <= 0 {
        seq![]
    } else {
        separator_pieces(aligns, ws, k - 1) + seq!['|', ' '] + aligns[k - 1].rendered(ws[k - 1]) + seq![' ']
    }
}

/// The separator row under the header.
pub open spec fn separator_row(aligns: Seq<ColumnAlign>, ws: Seq<nat>) -> Seq<char> {
    separator_pieces(aligns, ws, aligns.len() as int) + seq!['|']
}

/// The lines of a rendered table: the header, the separator row, the other rows.
pub open spec fn table_lines(g: Seq<Seq<Seq<char>>>, aligns: Seq<ColumnAlign>, spans: Seq<TableSpan>) -> Seq<Seq<char>> {
    let ws = widths_model(g, aligns, spans);
    if g.len() == 0 {
        seq![]
    } else {
        seq![row_line(g, spans, ws, 0), separator_row(aligns, ws)] + Seq::new(
            (g.len() - 1) as nat,
            |k: int| row_line(g, spans, ws, k + 1),
        )
    }
}

/// The rendered table: its lines joined by newlines.
pub open spec fn rendered_table(g: Seq<Seq<Seq<char>>>, aligns: Seq<ColumnAlign>, spans: Seq<TableSpan>) -> Seq<char> {
    join_text(table_lines(g, aligns, spans), "\n"@)
}

/// What rendering needs of its input: every merged cell within the columns,
/// and the widest possible line within the machine's sizes.
pub open spec fn renderable(g: Seq<Seq<Seq<char>>>, aligns: Seq<ColumnAlign>, spans: Seq<TableSpan>) -> bool {
    &&& forall|t: int| 0 <= t < spans.len() ==> (#[trigger] spans[t]).column + spans[t].column_span <= aligns.len()
    &&& sum_of(widths_model(g, aligns, spans), 0, aligns.len() as int) + 3 * aligns.len() < usize::MAX
}

fn cell_str(rows: &[Vec<String>], i: usize, c: usize) -> (r: &str)
    requires
        i < rows.len(),
    ensures
        r@ == cell_at(grid_model(rows@), i as int, c as int),
{
    proof {
        reveal_strlit("");
    }
    if c < rows[i].len() {
        assert(grid_model(rows@)[i as int] == strings_model(rows@[i as int]@));
        rows[i][c].as_str()
    } else {
        ""
    }
}

fn ceil_div_exec(a: usize, b: usize) -> (r: usize)
    requires
        b >= 1,
    ensures
        r == ceil_div(a as nat, b as nat),
{
    let q = a / b;
    if a % b == 0 {
        q
    } else {
        assert(q < a) by (nonlinear_arith)
            requires
                b >= 1,
                q == a / b,
                a % b != 0,
        {
            if b == 1 {
                assert(a % b == 0);
            }
        }
        q + 1
    }
}

fn cell_need_exec(rows: &[Vec<String>], spans: &[TableSpan], i: usize, c: usize) -> (r: usize)
    requires
        i < rows.len(),
    ensures
        r == cell_need(grid_model(rows@), spans@, i as int, c as int),
{
    let cell = cell_str(rows, i, c);
    let w = display_width(cell);
    match table_span_at(spans, i, c) {
        Some(sp) => {
            proof {
                lemma_span_at_covers(spans@, i as int, c as int);
            }
            if sp.row == i && sp.column == c {
                ceil_div_exec(w, sp.column_span)
            } else {
                0
            }
        },
        None => w,
    }
}

fn column_widths(rows: &[Vec<String>], aligns: &[ColumnAlign], spans: &[TableSpan]) -> (ws: Vec<usize>)
    ensures
        nat_seq(ws@) == widths_model(grid_model(rows@), aligns@, spans@),
{
    let ghost g = grid_model(rows@);
    let mut ws: Vec<usize> = Vec::new();
    let mut c: usize = 0;
    while c < aligns.len()
        invariant
            c <= aligns.len(),
            g == grid_model(rows@),
            g.len() == rows.len(),
            ws.len() == c,
            forall|t: int| 0 <= t < c ==> ws@[t] as nat == column_width(g, aligns@, spans@, t),
        decreases aligns.len() - c,
    {
        let mut m: usize = 0;
        let mut i: usize = 0;
        while i < rows.len()
            invariant
                i <= rows.len(),
                g == grid_model(rows@),
                g.len() == rows.len(),
                m == need_upto(g, spans@, c as int, i as int),
            decreases rows.len() - i,
        {
            let need = cell_need_exec(rows, spans, i, c);
            if need > m {
                m = need;
            }
            i += 1;
        }
        let floor = aligns[c].min_width();
        let w = if m >= floor {
            m
        } else {
            floor
        };
        ws.push(w);
        c += 1;
    }
    assert(nat_seq(ws@) =~= widths_model(g, aligns@, spans@));
    ws
}

fn push_spaces(line: &mut String, n: usize)
    ensures
        final(line)@ == old(line)@ + spaces(n as nat),
{
    let ghost start = line@;
    let mut k: usize = 0;
    while k < n
        invariant
            k <= n,
            line@ == start + spaces(k as nat),
        decreases n - k,
    {
        line.push(' ');
        k += 1;
        assert(line@ =~= start + spaces(k as nat));
    }
}

fn render_row(rows: &[Vec<String>], spans: &[TableSpan], widths: &Vec<usize>, i: usize, Ghost(aligns): Ghost<Seq<ColumnAlign>>) -> (r: String)
    requires
        i < rows.len(),
        nat_seq(widths@) == widths_model(grid_model(rows@), aligns, spans@),
        renderable(grid_model(rows@), aligns, spans@),
    ensures
        r@ == row_line(grid_model(rows@), spans@, nat_seq(widths@), i as int),
{
    let ghost g = grid_model(rows@);
    let ghost ws = nat_seq(widths@);
    let n = widths.len();
    assert(ws.len() == aligns.len());
    let mut line = String::new();
    line.push('|');
    let mut c: usize = 0;
    while c < n
        invariant
            c <= n == widths.len() == aligns.len(),
            i < rows.len(),
            g == grid_model(rows@),
            ws == nat_seq(widths@),
            ws == widths_model(g, aligns, spans@),
            renderable(g, aligns, spans@),
            line@ == seq!['|'] + row_pieces(g, spans@, ws, i as int, c as int),
        decreases n - c,
    {
        let ghost before = line@;
        let sp = table_span_at(spans, i, c);
        proof {
            lemma_span_at_covers(spans@, i as int, c as int);
        }
        let covered_left = match sp {
            Some(s) => s.column != c,
            None => false,
        };
        if covered_left {
            line.push('|');
            assert(line@ =~= before + row_piece(g, spans@, ws, i as int, c as int));
        } else {
            let text: &str = match sp {
                Some(s) => if s.row != i {
                    "^^"
                } else {
                    cell_str(rows, i, c)
                },
                None => cell_str(rows, i, c),
            };
            proof {
                reveal_strlit("^^");
            }
            let cs: usize = match sp {
                Some(s) => s.column_span,
                None => 1,
            };
            proof {
                if let Some(s) = sp {
                    let t = choose|t: int| 0 <= t < spans@.len() && spans@[t] == s;
                    assert(spans@[t].column + spans@[t].column_span <= aligns.len());
                }
                lemma_sum_of_le(ws, c as int, c + cs, n as int);
                lemma_sum_of_le(ws, c as int, c as int, n as int);
            }
            let mut total: usize = 0;
            let mut k: usize = c;
            while k < c + cs
                invariant
                    c <= k <= c + cs <= n == widths.len(),
                    ws == nat_seq(widths@),
                    total == sum_of(ws, c as int, k as int),
                    sum_of(ws, c as int, c + cs) <= sum_of(ws, 0, n as int),
                    sum_of(ws, 0, n as int) + 3 * n < usize::MAX,
                decreases c + cs - k,
            {
                proof {
                    lemma_sum_of_le(ws, c as int, k + 1, n as int);
                    assert(ws[k as int] == widths@[k as int]);
                }
                total = total + widths[k];
                k += 1;
            }
            let combined = total + 3 * (cs - 1);
            let w = display_width(text);
            let pad = if combined >= w {
                combined - w
            } else {
                0
            };
            line.push(' ');
            push_str(&mut line, text);
            push_spaces(&mut line, pad);
            line.push(' ');
            line.push('|');
            proof {
                let spec_text = if sp matches Some(s) && s.row != i {
                    seq!['^', '^']
                } else {
                    cell_at(g, i as int, c as int)
                };
                assert(text@ == spec_text);
                let spec_cs: int = match sp {
                    Some(s) => s.column_span as int,
                    None => 1,
                };
                assert(cs as int == spec_cs);
                assert(combined as int == sum_of(ws, c as int, c + spec_cs) + 3 * (spec_cs - 1));
                assert(line@ =~= before + row_piece(g, spans@, ws, i as int, c as int));
            }
        }
        c += 1;
    }
    line
}

fn render_separator(aligns: &[ColumnAlign], widths: &Vec<usize>) -> (r: String)
    requires
        widths.len() == aligns.len(),
    ensures
        r@ == separator_row(aligns@, nat_seq(widths@)),
{
    let ghost ws = nat_seq(widths@);
    let mut line = String::new();
    let mut c: usize = 0;
    while c < aligns.len()
        invariant
            c <= aligns.len() == widths.len(),
            ws == nat_seq(widths@),
            line@ == separator_pieces(aligns@, ws, c as int),
        decreases aligns.len() - c,
    {
        let cell = aligns[c].render(widths[c]);
        line.push('|');
        line.push(' ');
        push_str(&mut line, cell.as_str());
        line.push(' ');
        assert(line@ =~= separator_pieces(aligns@, ws, c + 1));
        c += 1;
    }
    line.push('|');
    line
}

/// Render cells, alignments and merged cells as an aligned Markdown table:
/// every column as wide as its widest cell (never less than its separator
/// cell needs), Chinese text counted two wide.
pub fn render_merged_table(rows: &[Vec<String>], aligns: &[ColumnAlign], spans: &[TableSpan]) -> (r: String)
    requires
        renderable(grid_model(rows@), aligns@, spans@),
    ensures
        r@ == rendered_table(grid_model(rows@), aligns@, spans@),
{
    let ghost g = grid_model(rows@);
    let widths = column_widths(rows, aligns, spans);
    let ghost ws = nat_seq(widths@);
    let ghost lines = table_lines(g, aligns@, spans@);
    let mut out: Vec<String> = Vec::new();
    let mut i: usize = 0;
    while i < rows.len()
        invariant
            i <= rows.len(),
            g == grid_model(rows@),
            g.len() == rows.len(),
            ws == nat_seq(widths@),
            ws == widths_model(g, aligns@, spans@),
            lines == table_lines(g, aligns@, spans@),
            renderable(g, aligns@, spans@),
            out.len() == if i == 0 { 0 } else { i + 1 },
            strings_model(out@) == if i == 0 { Seq::<Seq<char>>::empty() } else { lines.take(i + 1) },
        decreases rows.len() - i,
    {
        let row = render_row(rows, spans, &widths, i, Ghost(aligns@));
        let ghost prev = out@;
        out.push(row);
        if i == 0 {
            let sep = render_separator(aligns, &widths);
            out.push(sep);
            assert(lines[0] == row@);
            assert(lines[1] == sep@);
            assert(strings_model(out@) =~= lines.take(2));
        } else {
            assert(lines[i + 1] == row@);
            assert(strings_model(out@) =~= lines.take(i + 2)) by {
                assert(strings_model(prev) == lines.take(i + 1));
                assert forall|t: int| 0 <= t < i + 2 implies strings_model(out@)[t] == lines.take(i + 2)[t] by {
                    if t < i + 1 {
                        assert(out@[t] == prev[t]);
                        assert(strings_model(prev)[t] == lines[t]);
                    }
                }
            }
        }
        i += 1;
    }
    proof {
        if rows.len() > 0 {
            assert(lines.take(rows.len() + 1) =~= lines);
        } else {
            assert(lines =~= Seq::<Seq<char>>::empty());
        }
    }
    join_strings(&out, "\n")
}

/// Render a table without merged cells.
pub fn render_table(rows: &[Vec<String>], aligns: &[ColumnAlign]) -> (r: String)
    requires
        renderable(grid_model(rows@), aligns@, seq![]),
    ensures
        r@ == rendered_table(grid_model(rows@), aligns@, seq![]),
{
    let none: Vec<TableSpan> = Vec::new();
    assert(none@ =~= Seq::<TableSpan>::empty());
    render_merged_table(rows, aligns, none.as_slice())
}


// ---------------------------------------------------------------------------
// Parsing the cells of a table.

/// The pieces of a row between its pipes, untrimmed: an empty piece is a
/// cell covered from the left.
pub open spec fn raw_pieces(line: Seq<char>) -> Seq<Seq<char>> {
    split_at_char(row_body(line), '|')
}

/// Cell `c` of the row is covered by the cell on its left (`||`).
pub open spec fn left_marker(line: Seq<char>, c: int) -> bool {
    let p = raw_pieces(line);
    0 < c < p.len() && p[c].len() == 0
}

/// Cell `c` of row `i` is covered by the cell above (`^^`).
pub open spec fn up_marker(line: Seq<char>, i: int, c: int) -> bool {
    let p = raw_pieces(line);
    i > 0 && 0 <= c < p.len() && trim(p[c]) == seq!['^', '^']
}

pub open spec fn is_marker(line: Seq<char>, i: int, c: int) -> bool {
    left_marker(line, c) || up_marker(line, i, c)
}

/// The text of cell `c` of row `i`: the trimmed piece, empty for a covered
/// cell and for a cell the row does not have.
pub open spec fn parsed_cell(line: Seq<char>, i: int, c: int) -> Seq<char> {
    let p = raw_pieces(line);
    if 0 <= c < p.len() && !is_marker(line, i, c) {
        trim(p[c])
    } else {
        seq![]
    }
}

/// The cells of the rows, every row cut or filled to `columns` cells.
pub open spec fn parsed_rows(src: Seq<Seq<char>>, columns: nat) -> Seq<Seq<Seq<char>>> {
    Seq::new(src.len(), |i: int| Seq::new(columns, |c: int| parsed_cell(src[i], i, c)))
}

/// How many cells right of `(i, c)` are covered from the left, in a row.
pub open spec fn run_right(line: Seq<char>, c: int, columns: int) -> nat
    decreases columns - c,
{
    if c + 1 < columns && left_marker(line, c + 1) {
        1 + run_right(line, c + 1, columns)
    } else {
        0
    }
}

/// How many cells below `(i, c)` are covered from above, in a row.
pub open spec fn run_down(src: Seq<Seq<char>>, i: int, c: int) -> nat
    decreases src.len() - i,
{
    if 0 <= i && i + 1 < src.len() && up_marker(src[i + 1], i + 1, c) {
        1 + run_down(src, i + 1, c)
    } else {
        0
    }
}

/// The merged cell whose top-left cell is `(i, c)`, if it is one.
pub open spec fn span_here(src: Seq<Seq<char>>, columns: int, i: int, c: int) -> Option<TableSpan> {
    let right = run_right(src[i], c, columns);
    let down = run_down(src, i, c);
    if !is_marker(src[i], i, c) && (right > 0 || down > 0) {
        Some(TableSpan { row: i as usize, column: c as usize, row_span: (1 + down) as usize, column_span: (1 + right) as usize })
    } else {
        None
    }
}

pub open spec fn row_spans(src: Seq<Seq<char>>, columns: int, i: int, k: int) -> Seq<TableSpan>
    decreases k,
{
    if k <= 0 {
        seq![]
    } else {
        row_spans(src, columns, i, k - 1) + match span_here(src, columns, i, k - 1) {
            Some(sp) => seq![sp],
            None => seq![],
        }
    }
}

pub open spec fn spans_upto(src: Seq<Seq<char>>, columns: int, k: int) -> Seq<TableSpan>
    decreases k,
{
    if k <= 0 {
        seq![]
    } else {
        spans_upto(src, columns, k - 1) + row_spans(src, columns, k - 1, columns)
    }
}

/// The merged cells of the rows, by row and then by column.
pub open spec fn parsed_spans(src: Seq<Seq<char>>, columns: nat) -> Seq<TableSpan> {
    spans_upto(src, columns as int, src.len() as int)
}

/// The raw pieces of a row.
fn raw_row_pieces(line: &str) -> (r: Vec<String>)
    ensures
        strings_model(r@) == raw_pieces(line@),
{
    let v = chars_of(line);
    let n = v.len();
    let (mut a, mut b) = crate::text::trim_bounds(&v, 0, n);
    assert(v@.subrange(0, n as int) =~= v@);
    let ghost t = v@.subrange(a as int, b as int);
    if a < b && v[a] == '|' {
        a += 1;
        assert(v@.subrange(a as int, b as int) =~= t.drop_first());
    }
    let ghost t1 = v@.subrange(a as int, b as int);
    if a < b && v[b - 1] == '|' {
        b -= 1;
        assert(v@.subrange(a as int, b as int) =~= t1.drop_last());
    }
    split_pieces(&v, a, b, '|')
}

fn left_marker_exec(p: &Vec<String>, c: usize, Ghost(line): Ghost<Seq<char>>) -> (r: bool)
    requires
        strings_model(p@) == raw_pieces(line),
    ensures
        r == left_marker(line, c as int),
{
    if c == 0 || c >= p.len() {
        return false;
    }
    assert(strings_model(p@)[c as int] == p@[c as int]@);
    let v = chars_of(p[c].as_str());
    v.len() == 0
}

fn up_marker_exec(p: &Vec<String>, i: usize, c: usize, Ghost(line): Ghost<Seq<char>>) -> (r: bool)
    requires
        strings_model(p@) == raw_pieces(line),
    ensures
        r == up_marker(line, i as int, c as int),
{
    if i == 0 || c >= p.len() {
        return false;
    }
    assert(strings_model(p@)[c as int] == p@[c as int]@);
    let v = chars_of(p[c].as_str());
    let n = v.len();
    let (a, b) = crate::text::trim_bounds(&v, 0, n);
    assert(v@.subrange(0, n as int) =~= v@);
    let ghost t = v@.subrange(a as int, b as int);
    proof {
        if t.len() == 2 {
            assert(t[0] == v@[a as int]);
            assert(t[1] == v@[a + 1]);
        }
    }
    let r = b - a == 2 && v[a] == '^' && v[a + 1] == '^';
    assert(r == (t =~= seq!['^', '^']));
    r
}

fn run_right_exec(p: &Vec<String>, c: usize, columns: usize, Ghost(line): Ghost<Seq<char>>) -> (r: usize)
    requires
        strings_model(p@) == raw_pieces(line),
        c < columns,
    ensures
        r == run_right(line, c as int, columns as int),
        r < columns - c,
    decreases columns - c,
{
    if c + 1 < columns && left_marker_exec(p, c + 1, Ghost(line)) {
        1 + run_right_exec(p, c + 1, columns, Ghost(line))
    } else {
        0
    }
}

fn run_down_exec(all: &Vec<Vec<String>>, i: usize, c: usize, Ghost(src): Ghost<Seq<Seq<char>>>) -> (r: usize)
    requires
        all.len() == src.len(),
        forall|t: int| 0 <= t < all.len() ==> strings_model((#[trigger] all@[t])@) == raw_pieces(src[t]),
        i < all.len(),
    ensures
        r == run_down(src, i as int, c as int),
        r < all.len() - i,
    decreases all.len() - i,
{
    if i + 1 < all.len() && up_marker_exec(&all[i + 1], i + 1, c, Ghost(src[i + 1])) {
        1 + run_down_exec(all, i + 1, c, Ghost(src))
    } else {
        0
    }
}

fn parsed_cell_exec(p: &Vec<String>, i: usize, c: usize, Ghost(line): Ghost<Seq<char>>) -> (r: String)
    requires
        strings_model(p@) == raw_pieces(line),
    ensures
        r@ == parsed_cell(line, i as int, c as int),
{
    if c < p.len() && !left_marker_exec(p, c, Ghost(line)) && !up_marker_exec(p, i, c, Ghost(line)) {
        assert(strings_model(p@)[c as int] == p@[c as int]@);
        let v = chars_of(p[c].as_str());
        let n = v.len();
        let (a, b) = crate::text::trim_bounds(&v, 0, n);
        assert(v@.subrange(0, n as int) =~= v@);
        crate::text::string_of_range(&v, a, b)
    } else {
        String::new()
    }
}

/// Cells and merged cells of the source rows of a table (the separator row
/// left out), every row cut or filled to `columns` cells.
pub fn parse_table_cells(source_rows: &[String], columns: usize) -> (r: (Vec<Vec<String>>, Vec<TableSpan>))
    ensures
        grid_model(r.0@) == parsed_rows(strings_model(source_rows@), columns as nat),
        r.1@ == parsed_spans(strings_model(source_rows@), columns as nat),
{
    let ghost src = strings_model(source_rows@);
    let mut all: Vec<Vec<String>> = Vec::new();
    let mut i: usize = 0;
    while i < source_rows.len()
        invariant
            i <= source_rows.len(),
            src == strings_model(source_rows@),
            all.len() == i,
            forall|t: int| 0 <= t < i ==> strings_model((#[trigger] all@[t])@) == raw_pieces(src[t]),
        decreases source_rows.len() - i,
    {
        assert(src[i as int] == source_rows@[i as int]@);
        all.push(raw_row_pieces(source_rows[i].as_str()));
        i += 1;
    }
    let ghost model = parsed_rows(src, columns as nat);
    let mut rows: Vec<Vec<String>> = Vec::new();
    let mut spans: Vec<TableSpan> = Vec::new();
    i = 0;
    while i < all.len()
        invariant
            i <= all.len() == src.len(),
            src == strings_model(source_rows@),
            model == parsed_rows(src, columns as nat),
            forall|t: int| 0 <= t < all.len() ==> strings_model((#[trigger] all@[t])@) == raw_pieces(src[t]),
            rows.len() == i,
            forall|t: int| 0 <= t < i ==> strings_model((#[trigger] rows@[t])@) == model[t],
            spans@ == spans_upto(src, columns as int, i as int),
        decreases all.len() - i,
    {
        let mut row: Vec<String> = Vec::new();
        let ghost before = spans@;
        let mut c: usize = 0;
        while c < columns
            invariant
                c <= columns,
                i < all.len() == src.len(),
                forall|t: int| 0 <= t < all.len() ==> strings_model((#[trigger] all@[t])@) == raw_pieces(src[t]),
                row.len() == c,
                forall|t: int| 0 <= t < c ==> (#[trigger] row@[t])@ == parsed_cell(src[i as int], i as int, t),
                spans@ == before + row_spans(src, columns as int, i as int, c as int),
            decreases columns - c,
        {
            row.push(parsed_cell_exec(&all[i], i, c, Ghost(src[i as int])));
            let marker = left_marker_exec(&all[i], c, Ghost(src[i as int])) || up_marker_exec(
                &all[i],
                i,
                c,
                Ghost(src[i as int]),
            );
            let right = run_right_exec(&all[i], c, columns, Ghost(src[i as int]));
            let down = run_down_exec(&all, i, c, Ghost(src));
            let ghost prev = spans@;
            if !marker && (right > 0 || down > 0) {
                spans.push(TableSpan { row: i, column: c, row_span: 1 + down, column_span: 1 + right });
            }
            proof {
                assert(spans@ =~= before + row_spans(src, columns as int, i as int, c + 1));
            }
            c += 1;
        }
        proof {
            assert(strings_model(row@) =~= model[i as int]);
        }
        rows.push(row);
        i += 1;
    }
    proof {
        assert(grid_model(rows@) =~= model) by {
            assert forall|t: int| 0 <= t < rows.len() implies grid_model(rows@)[t] == model[t] by {
                assert(strings_model(rows@[t]@) == model[t]);
            }
        }
    }
    (rows, spans)
}


// ---------------------------------------------------------------------------
// The table under the cursor.

/// The table under the cursor: its cells (the header included, the separator
/// row left out), the column alignments, the merged cells, the byte range of
/// the whole table in the source, and the cell the cursor is in.
#[derive(Debug, Clone)]
pub struct TableEdit {
    pub rows: Vec<Vec<String>>,
    pub aligns: Vec<ColumnAlign>,
    pub spans: Vec<TableSpan>,
    pub span: Range<usize>,
    pub row: usize,
    pub column: usize,
}

impl TableEdit {
    /// Number of columns.
    pub fn columns(&self) -> (r: usize)
        ensures
            r == self.aligns.len(),
    {
        self.aligns.len()
    }
}

/// Line `k` of a text, its `'\r'` left out.
pub open spec fn src_line(s: Seq<char>, k: int) -> Seq<char> {
    strip_cr(split_nl(s)[k])
}

/// The first line of the run of table lines that reaches down to line `k`.
pub open spec fn table_top(s: Seq<char>, k: int) -> int
    decreases k,
{
    if k > 0 && table_source_line(src_line(s, k - 1)) {
        table_top(s, k - 1)
    } else {
        k
    }
}

/// The last line of the run of table lines that starts at line `k`.
pub open spec fn table_bottom(s: Seq<char>, k: int) -> int
    decreases split_nl(s).len() - k,
{
    if k + 1 < split_nl(s).len() && table_source_line(src_line(s, k + 1)) {
        table_bottom(s, k + 1)
    } else {
        k
    }
}

/// How many `'|'` of `line` start before byte `b`.
pub open spec fn pipes_before(line: Seq<char>, b: int) -> nat
    decreases line.len(),
{
    if line.len() == 0 {
        0
    } else {
        pipes_before(line.drop_last(), b) + if line.last() == '|' && byte_len(line.drop_last()) < b {
            1nat
        } else {
            0nat
        }
    }
}

/// The alignments of a table whose header is line `first`: one per cell of
/// the separator row, and `Auto` for the further columns the header has.
pub open spec fn table_model_aligns(s: Seq<char>, first: int) -> Seq<ColumnAlign> {
    let given = row_cells(src_line(s, first + 1)).map_values(|cell: Seq<char>| align_of_cell(cell));
    let head = row_cells(src_line(s, first)).len();
    let columns: nat = if given.len() >= head && given.len() >= 1 {
        given.len()
    } else if head >= 1 {
        head
    } else {
        1
    };
    Seq::new(columns, |c: int| if c < given.len() { given[c] } else { ColumnAlign::Auto })
}

/// The source rows of a table on lines `first..=last`: the header, then the
/// rows under the separator row.
pub open spec fn table_model_src(s: Seq<char>, first: int, last: int) -> Seq<Seq<char>> {
    seq![src_line(s, first)] + Seq::new((last - first - 1) as nat, |k: int| src_line(s, first + 2 + k))
}

/// The model of a table found around line `at` with the cursor at byte
/// `cursor`; `None` when line `at` is not a table line, or the run of table
/// lines around it has no separator row right under its first line.
pub open spec fn table_model(s: Seq<char>, at: int, cursor: int) -> Option<(
    Seq<Seq<Seq<char>>>,
    Seq<ColumnAlign>,
    Seq<TableSpan>,
    (nat, nat),
    int,
    int,
)> {
    let first = table_top(s, at);
    let last = table_bottom(s, at);
    if !table_source_line(src_line(s, at)) || last <= first || !separator_line(src_line(s, first + 1)) {
        None
    } else {
        let aligns = table_model_aligns(s, first);
        let columns = aligns.len();
        let src = table_model_src(s, first, last);
        let rs = line_ranges_model(s);
        let cut = if cursor < rs[at].0 {
            rs[at].0 as int
        } else if cursor > rs[at].1 {
            rs[at].1 as int
        } else {
            cursor
        };
        let pipes = pipes_before(src_line(s, at), cut - rs[at].0);
        let column = if pipes >= 1 { pipes - 1 } else { 0 };
        Some((
            parsed_rows(src, columns),
            aligns,
            parsed_spans(src, columns),
            (rs[first].0, rs[last].1),
            if at <= first + 1 { 0 } else { at - first - 1 },
            if column < columns - 1 { column } else { columns - 1 },
        ))
    }
}

/// Every line of a text, `'\r'` left out.
fn source_lines(text: &str) -> (r: Vec<String>)
    ensures
        r.len() == split_nl(text@).len(),
        forall|k: int| 0 <= k < r.len() ==> (#[trigger] r@[k])@ == src_line(text@, k),
{
    let v = chars_of(text);
    let starts = line_starts(&v);
    let mut out: Vec<String> = Vec::new();
    let mut k: usize = 0;
    while k < starts.len()
        invariant
            k <= starts.len() == split_nl(text@).len(),
            v@ == text@,
            forall|t: int| 0 <= t < starts.len() ==> starts@[t] == char_start(split_nl(v@), t),
            out.len() == k,
            forall|t: int| 0 <= t < k ==> (#[trigger] out@[t])@ == src_line(text@, t),
        decreases starts.len() - k,
    {
        proof {
            lemma_split_nl_piece(v@, k as int);
        }
        let (a, b) = match line_range(&starts, &v, k + 1) {
            Some(p) => p,
            None => (0, 0),
        };
        let end = if b > a && v[b - 1] == '\r' {
            b - 1
        } else {
            b
        };
        proof {
            let piece = split_nl(v@)[k as int];
            assert(v@.subrange(a as int, b as int) == piece);
            if b > a {
                assert(piece.last() == v@[b - 1]);
            }
            if end < b {
                assert(v@.subrange(a as int, end as int) =~= piece.drop_last());
            }
        }
        out.push(string_of_range(&v, a, end));
        k += 1;
    }
    out
}

proof fn lemma_table_top(s: Seq<char>, at: int, k: int)
    requires
        0 <= k <= at,
        forall|t: int| k <= t < at ==> table_source_line(#[trigger] src_line(s, t)),
        table_top(s, k) == k,
    ensures
        table_top(s, at) == k,
    decreases at - k,
{
    if at > k {
        lemma_table_top(s, at - 1, k);
    }
}

proof fn lemma_table_bottom(s: Seq<char>, at: int, k: int)
    requires
        at <= k < split_nl(s).len(),
        forall|t: int| at < t <= k ==> table_source_line(#[trigger] src_line(s, t)),
        table_bottom(s, k) == k,
    ensures
        table_bottom(s, at) == k,
    decreases k - at,
{
    if at < k {
        lemma_table_bottom(s, at + 1, k);
    }
}

fn count_pipes_before(line: &str, b: usize) -> (r: usize)
    ensures
        r == pipes_before(line@, b as int),
        r <= line@.len(),
{
    crate::text::str_bytes_fit(line);
    let v = chars_of(line);
    let mut k: usize = 0;
    let mut bytes: usize = 0;
    let mut r: usize = 0;
    while k < v.len()
        invariant
            k <= v.len(),
            v@ == line@,
            byte_len(v@) <= usize::MAX,
            bytes == byte_len(v@.take(k as int)),
            r == pipes_before(v@.take(k as int), b as int),
            r <= k,
        decreases v.len() - k,
    {
        proof {
            assert(v@.take(k + 1).drop_last() =~= v@.take(k as int));
            crate::text::lemma_byte_len_take_le(v@, k + 1);
            crate::text::lemma_byte_len_concat(v@.take(k as int), seq![v@[k as int]]);
            assert(v@.take(k as int) + seq![v@[k as int]] =~= v@.take(k + 1));
            assert(seq![v@[k as int]].drop_last() =~= Seq::<char>::empty());
        }
        if v[k] == '|' && bytes < b {
            r += 1;
        }
        bytes = bytes + crate::text::char_width(v[k]);
        k += 1;
    }
    assert(v@.take(v.len() as int) =~= v@);
    r
}

/// The run of table lines around line `at`, if it makes a table.
fn table_run(lines: &Vec<String>, at: usize, Ghost(s): Ghost<Seq<char>>) -> (r: Option<(usize, usize)>)
    requires
        at < lines.len() == split_nl(s).len(),
        forall|k: int| 0 <= k < lines.len() ==> (#[trigger] lines@[k])@ == src_line(s, k),
    ensures
        match r {
            Some((first, last)) => first == table_top(s, at as int) && last == table_bottom(s, at as int)
                && table_source_line(src_line(s, at as int)) && first < last < lines.len()
                && separator_line(src_line(s, first + 1)) && first <= at <= last,
            None => !table_source_line(src_line(s, at as int)) || table_bottom(s, at as int) <= table_top(
                s,
                at as int,
            ) || !separator_line(src_line(s, table_top(s, at as int) + 1)),
        },
{
    if !is_table_source_line(lines[at].as_str()) {
        return None;
    }
    let mut first = at;
    while first > 0 && is_table_source_line(lines[first - 1].as_str())
        invariant
            first <= at < lines.len() == split_nl(s).len(),
            forall|k: int| 0 <= k < lines.len() ==> (#[trigger] lines@[k])@ == src_line(s, k),
            forall|t: int| first <= t < at ==> table_source_line(#[trigger] src_line(s, t)),
        decreases first,
    {
        first -= 1;
    }
    proof {
        assert(table_top(s, first as int) == first);
        lemma_table_top(s, at as int, first as int);
    }
    let mut last = at;
    while last + 1 < lines.len() && is_table_source_line(lines[last + 1].as_str())
        invariant
            at <= last < lines.len() == split_nl(s).len(),
            forall|k: int| 0 <= k < lines.len() ==> (#[trigger] lines@[k])@ == src_line(s, k),
            forall|t: int| at < t <= last ==> table_source_line(#[trigger] src_line(s, t)),
        decreases lines.len() - last,
    {
        last += 1;
    }
    proof {
        assert(table_bottom(s, last as int) == last);
        lemma_table_bottom(s, at as int, last as int);
    }
    if last <= first || !is_table_separator_line(lines[first + 1].as_str()) {
        return None;
    }
    Some((first, last))
}

/// The column alignments of a table and its number of columns.
fn table_aligns(lines: &Vec<String>, first: usize, Ghost(s): Ghost<Seq<char>>) -> (r: Vec<ColumnAlign>)
    requires
        first + 1 < lines.len(),
        forall|k: int| 0 <= k < lines.len() ==> (#[trigger] lines@[k])@ == src_line(s, k),
    ensures
        table_model_aligns(s, first as int) == r@,
{
    let seps = split_row(lines[first + 1].as_str());
    let ghost given = row_cells(src_line(s, first + 1)).map_values(|cell: Seq<char>| align_of_cell(cell));
    let mut aligns: Vec<ColumnAlign> = Vec::new();
    let mut k: usize = 0;
    while k < seps.len()
        invariant
            k <= seps.len(),
            strings_model(seps@) == row_cells(src_line(s, first + 1)),
            given == row_cells(src_line(s, first + 1)).map_values(|cell: Seq<char>| align_of_cell(cell)),
            aligns@ == given.take(k as int),
        decreases seps.len() - k,
    {
        assert(strings_model(seps@)[k as int] == seps@[k as int]@);
        aligns.push(ColumnAlign::parse(seps[k].as_str()));
        assert(aligns@ =~= given.take(k + 1));
        k += 1;
    }
    assert(given.take(seps.len() as int) =~= given);
    let head = split_row(lines[first].as_str()).len();
    let columns = if aligns.len() >= head && aligns.len() >= 1 {
        aligns.len()
    } else if head >= 1 {
        head
    } else {
        1
    };
    let ghost model_aligns = table_model_aligns(s, first as int);
    assert(model_aligns.len() == columns);
    while aligns.len() < columns
        invariant
            given == row_cells(src_line(s, first + 1)).map_values(|cell: Seq<char>| align_of_cell(cell)),
            model_aligns == table_model_aligns(s, first as int),
            model_aligns.len() == columns,
            given.len() <= aligns.len() <= columns,
            forall|c: int| 0 <= c < aligns.len() ==> aligns@[c] == model_aligns[c],
        decreases columns - aligns.len(),
    {
        aligns.push(ColumnAlign::Auto);
    }
    assert(aligns@ =~= model_aligns);
    aligns
}

/// The source rows of a table: the header and the rows under the separator.
fn table_source_rows(lines: &Vec<String>, first: usize, last: usize, Ghost(s): Ghost<Seq<char>>) -> (r: Vec<String>)
    requires
        first < last < lines.len(),
        forall|k: int| 0 <= k < lines.len() ==> (#[trigger] lines@[k])@ == src_line(s, k),
    ensures
        strings_model(r@) == table_model_src(s, first as int, last as int),
{
    let ghost src = table_model_src(s, first as int, last as int);
    let mut source_rows: Vec<String> = Vec::new();
    source_rows.push(lines[first].clone());
    let mut k: usize = first + 2;
    while k <= last
        invariant
            first + 2 <= k <= last + 1,
            last < lines.len(),
            src == table_model_src(s, first as int, last as int),
            forall|t: int| 0 <= t < lines.len() ==> (#[trigger] lines@[t])@ == src_line(s, t),
            source_rows.len() == k - first - 1,
            forall|t: int| 0 <= t < source_rows.len() ==> (#[trigger] source_rows@[t])@ == src[t],
        decreases last + 1 - k,
    {
        source_rows.push(lines[k].clone());
        k += 1;
    }
    assert(strings_model(source_rows@) =~= src);
    source_rows
}

/// The table the cursor (a byte position) is in; `None` when it is not in
/// one, or the lines around it are no GFM table (the header must be followed
/// by a separator row). The cursor on the separator row counts as the header;
/// its column is the number of pipes before it, less the leading one.
pub fn table_at(text: &str, cursor: usize) -> (r: Option<TableEdit>)
    ensures
        forall|at: int| first_line_ending_after(line_ranges_model(text@), cursor as nat, at) ==> match r {
            Some(t) => table_model(text@, at, cursor as int) == Some((
                grid_model(t.rows@),
                t.aligns@,
                t.spans@,
                (t.span.start as nat, t.span.end as nat),
                t.row as int,
                t.column as int,
            )),
            None => table_model(text@, at, cursor as int) is None,
        },
{
    let ghost s = text@;
    let ranges = line_ranges(text);
    let lines = source_lines(text);
    let ghost rs = line_ranges_model(s);
    proof {
        crate::text::lemma_split_nl_nonempty(s);
        assert(crate::diff_editor::ranges_model(ranges@).len() == ranges.len());
    }
    let rslice = ranges.as_slice();
    let at = line_at_byte(rslice, cursor);
    proof {
        assert(ranges@ == rslice@);
        lemma_line_unique(rs, cursor as nat, at as int);
    }
    let (first, last) = match table_run(&lines, at, Ghost(s)) {
        Some(p) => p,
        None => {
            return None;
        },
    };
    let aligns = table_aligns(&lines, first, Ghost(s));
    let columns = aligns.len();
    let source_rows = table_source_rows(&lines, first, last, Ghost(s));
    let src_slice = source_rows.as_slice();
    let (rows, spans) = parse_table_cells(src_slice, columns);
    let start = ranges[at].start;
    let end = ranges[at].end;
    proof {
        assert(crate::diff_editor::ranges_model(ranges@)[at as int] == (start as nat, end as nat));
        assert(rs[at as int] == crate::markdown::line_model(split_nl(s), at as int));
    }
    let cut = if cursor < start {
        start
    } else if cursor > end {
        end
    } else {
        cursor
    };
    let pipes = count_pipes_before(lines[at].as_str(), cut - start);
    let column0 = if pipes >= 1 {
        pipes - 1
    } else {
        0
    };
    let column = if column0 < columns - 1 {
        column0
    } else {
        columns - 1
    };
    let row = if at <= first + 1 {
        0
    } else {
        at - first - 1
    };
    proof {
        assert(src_slice@ == source_rows@);
        assert(crate::diff_editor::ranges_model(ranges@)[first as int] == (
            ranges@[first as int].start as nat,
            ranges@[first as int].end as nat,
        ));
        assert(crate::diff_editor::ranges_model(ranges@)[last as int] == (
            ranges@[last as int].start as nat,
            ranges@[last as int].end as nat,
        ));
    }
    Some(TableEdit { rows, aligns, spans, span: ranges[first].start..ranges[last].end, row, column })
}

proof fn lemma_line_unique(rs: Seq<(nat, nat)>, byte: nat, k: int)
    requires
        first_line_ending_after(rs, byte, k),
    ensures
        forall|j: int| first_line_ending_after(rs, byte, j) ==> j == k,
{
    assert forall|j: int| first_line_ending_after(rs, byte, j) implies j == k by {
        if j < k {
            assert(byte > rs[j].1);
        } else if j > k {
            assert(byte > rs[k].1);
        }
    }
}


// ---------------------------------------------------------------------------
// Editing rows, columns and merged cells.

/// A merged cell of at least one cell that lies within `rows` rows and
/// `columns` columns.
pub open spec fn span_wf(sp: TableSpan, rows: int, columns: int) -> bool {
    &&& sp.row_span >= 1
    &&& sp.column_span >= 1
    &&& sp.row + sp.row_span <= rows
    &&& sp.column + sp.column_span <= columns
}

/// Every row has one cell per column, and every merged cell lies within
/// the table.
pub open spec fn table_wf(t: TableEdit) -> bool {
    &&& forall|i: int| 0 <= i < t.rows.len() ==> (#[trigger] t.rows@[i]).len() == t.aligns.len()
    &&& forall|k: int| 0 <= k < t.spans.len() ==> span_wf(#[trigger] t.spans@[k], t.rows.len() as int, t.aligns.len() as int)
}

/// Anchor order: by row, then by column.
pub open spec fn anchor_le(a: TableSpan, b: TableSpan) -> bool {
    a.row < b.row || (a.row == b.row && a.column <= b.column)
}

/// Where a span goes in a list sorted by anchor: after every span whose
/// anchor is not after its own.
pub open spec fn insert_pos(s: Seq<TableSpan>, x: TableSpan) -> int
    decreases s.len(),
{
    if s.len() > 0 && anchor_le(s[0], x) {
        1 + insert_pos(s.drop_first(), x)
    } else {
        0
    }
}

/// The spans sorted by anchor, spans with the same anchor in their order.
pub open spec fn anchor_sorted(s: Seq<TableSpan>) -> Seq<TableSpan>
    decreases s.len(),
{
    if s.len() == 0 {
        s
    } else {
        let p = anchor_sorted(s.drop_last());
        p.insert(insert_pos(p, s.last()), s.last())
    }
}

/// The spans that merge more than one cell.
pub open spec fn real_spans(s: Seq<TableSpan>) -> Seq<TableSpan>
    decreases s.len(),
{
    if s.len() == 0 {
        s
    } else {
        real_spans(s.drop_last()) + if s.last().row_span > 1 || s.last().column_span > 1 {
            seq![s.last()]
        } else {
            seq![]
        }
    }
}

/// What an edit leaves of the merged cells: those that still merge cells,
/// ordered by anchor.
pub open spec fn retained(s: Seq<TableSpan>) -> Seq<TableSpan> {
    anchor_sorted(real_spans(s))
}

proof fn lemma_insert_pos_skip(s: Seq<TableSpan>, x: TableSpan, k: int)
    requires
        0 <= k <= s.len(),
        forall|t: int| 0 <= t < k ==> anchor_le(#[trigger] s[t], x),
    ensures
        insert_pos(s, x) == k + insert_pos(s.skip(k), x),
    decreases k,
{
    if k > 0 {
        assert(anchor_le(s[0], x));
        assert forall|t: int| 0 <= t < k - 1 implies anchor_le(#[trigger] s.drop_first()[t], x) by {
            assert(s.drop_first()[t] == s[t + 1]);
        }
        lemma_insert_pos_skip(s.drop_first(), x, k - 1);
        assert(s.drop_first().skip(k - 1) =~= s.skip(k));
    } else {
        assert(s.skip(0) =~= s);
    }
}

proof fn lemma_insert_pos_bound(s: Seq<TableSpan>, x: TableSpan)
    ensures
        0 <= insert_pos(s, x) <= s.len(),
    decreases s.len(),
{
    if s.len() > 0 {
        lemma_insert_pos_bound(s.drop_first(), x);
    }
}

proof fn lemma_anchor_sorted_len(s: Seq<TableSpan>)
    ensures
        anchor_sorted(s).len() == s.len(),
    decreases s.len(),
{
    if s.len() > 0 {
        lemma_anchor_sorted_len(s.drop_last());
        lemma_insert_pos_bound(anchor_sorted(s.drop_last()), s.last());
    }
}

/// Keep the spans that merge more than one cell, ordered by anchor.
fn retain_real_spans(spans: &mut Vec<TableSpan>)
    ensures
        final(spans)@ == retained(old(spans)@),
{
    let mut merged: Vec<TableSpan> = Vec::new();
    let mut k: usize = 0;
    while k < spans.len()
        invariant
            k <= spans.len(),
            merged@ == real_spans(spans@.take(k as int)),
        decreases spans.len() - k,
    {
        assert(spans@.take(k + 1).drop_last() =~= spans@.take(k as int));
        let sp = spans[k];
        if sp.row_span > 1 || sp.column_span > 1 {
            merged.push(sp);
        }
        assert(merged@ =~= real_spans(spans@.take(k + 1)));
        k += 1;
    }
    assert(spans@.take(spans.len() as int) =~= spans@);
    let mut out: Vec<TableSpan> = Vec::new();
    let mut k: usize = 0;
    while k < merged.len()
        invariant
            k <= merged.len(),
            out@ == anchor_sorted(merged@.take(k as int)),
        decreases merged.len() - k,
    {
        let x = merged[k];
        let mut p: usize = 0;
        while p < out.len() && (out[p].row < x.row || (out[p].row == x.row && out[p].column <= x.column))
            invariant
                p <= out.len(),
                forall|t: int| 0 <= t < p ==> anchor_le(#[trigger] out@[t], x),
            decreases out.len() - p,
        {
            p += 1;
        }
        proof {
            lemma_insert_pos_skip(out@, x, p as int);
            if p < out.len() {
                assert(out@.skip(p as int)[0] == out@[p as int]);
            }
            assert(insert_pos(out@.skip(p as int), x) == 0);
            assert(merged@.take(k + 1).drop_last() =~= merged@.take(k as int));
            assert(merged@.take(k + 1).last() == x);
        }
        out.insert(p, x);
        k += 1;
    }
    assert(merged@.take(merged.len() as int) =~= merged@);
    *spans = out;
}

/// A span after a row is inserted at `at`: pushed down when it starts at or
/// below, grown when the new row falls inside it.
pub open spec fn row_inserted(sp: TableSpan, at: int) -> TableSpan {
    if at <= sp.row {
        TableSpan { row: (sp.row + 1) as usize, column: sp.column, row_span: sp.row_span, column_span: sp.column_span }
    } else if at < sp.row + sp.row_span {
        TableSpan { row: sp.row, column: sp.column, row_span: (sp.row_span + 1) as usize, column_span: sp.column_span }
    } else {
        sp
    }
}

/// A span after a column is inserted at `at`.
pub open spec fn column_inserted(sp: TableSpan, at: int) -> TableSpan {
    if at <= sp.column {
        TableSpan { row: sp.row, column: (sp.column + 1) as usize, row_span: sp.row_span, column_span: sp.column_span }
    } else if at < sp.column + sp.column_span {
        TableSpan { row: sp.row, column: sp.column, row_span: sp.row_span, column_span: (sp.column_span + 1) as usize }
    } else {
        sp
    }
}

/// A row of `n` empty cells.
pub open spec fn empty_row(n: nat) -> Seq<Seq<char>> {
    Seq::new(n, |c: int| Seq::<char>::empty())
}

fn copy_row(row: &Vec<String>) -> (r: Vec<String>)
    ensures
        r@ == row@,
{
    let mut r: Vec<String> = Vec::new();
    let mut k: usize = 0;
    while k < row.len()
        invariant
            k <= row.len(),
            r@ == row@.take(k as int),
        decreases row.len() - k,
    {
        r.push(row[k].clone());
        assert(r@ =~= row@.take(k + 1));
        k += 1;
    }
    assert(row@.take(row.len() as int) =~= row@);
    r
}

fn empty_cells(n: usize) -> (r: Vec<String>)
    ensures
        strings_model(r@) == empty_row(n as nat),
        r.len() == n,
{
    let mut r: Vec<String> = Vec::new();
    let mut k: usize = 0;
    while k < n
        invariant
            k <= n,
            r.len() == k,
            forall|t: int| 0 <= t < k ==> (#[trigger] r@[t])@ == Seq::<char>::empty(),
        decreases n - k,
    {
        r.push(String::new());
        k += 1;
    }
    assert(strings_model(r@) =~= empty_row(n as nat));
    r
}

/// Insert an empty row at `at`; merged cells below move down, a merged cell
/// the new row falls inside grows by it.
pub fn insert_table_row(table: &mut TableEdit, at: usize)
    requires
        at <= old(table).rows.len() < usize::MAX,
        table_wf(*old(table)),
    ensures
        grid_model(final(table).rows@) == grid_model(old(table).rows@).insert(at as int, empty_row(old(table).aligns.len() as nat)),
        final(table).spans@ == old(table).spans@.map_values(|sp: TableSpan| row_inserted(sp, at as int)),
        final(table).aligns@ == old(table).aligns@,
        final(table).span == old(table).span,
        final(table).row == old(table).row,
        final(table).column == old(table).column,
        table_wf(*final(table)),
{
    let ghost g0 = grid_model(table.rows@);
    let ghost rows0 = table.rows@;
    let cells = empty_cells(table.aligns.len());
    table.rows.insert(at, cells);
    assert(grid_model(table.rows@) =~= g0.insert(at as int, empty_row(table.aligns.len() as nat)));
    let ghost spans0 = table.spans@;
    let nrows = table.rows.len();
    let mut next: Vec<TableSpan> = Vec::new();
    let mut k: usize = 0;
    while k < table.spans.len()
        invariant
            k <= table.spans.len(),
            table.spans@ == spans0,
            nrows == table.rows.len(),
            nrows == rows0.len() + 1,
            at < nrows,
            forall|t: int| 0 <= t < spans0.len() ==> span_wf(#[trigger] spans0[t], rows0.len() as int, table.aligns.len() as int),
            next@ == spans0.take(k as int).map_values(|sp: TableSpan| row_inserted(sp, at as int)),
        decreases table.spans.len() - k,
    {
        let sp = table.spans[k];
        assert(span_wf(spans0[k as int], rows0.len() as int, table.aligns.len() as int));
        let moved = if at <= sp.row {
            TableSpan { row: sp.row + 1, column: sp.column, row_span: sp.row_span, column_span: sp.column_span }
        } else if at < sp.row + sp.row_span {
            TableSpan { row: sp.row, column: sp.column, row_span: sp.row_span + 1, column_span: sp.column_span }
        } else {
            sp
        };
        next.push(moved);
        assert(next@ =~= spans0.take(k + 1).map_values(|sp: TableSpan| row_inserted(sp, at as int)));
        k += 1;
    }
    assert(spans0.take(spans0.len() as int) =~= spans0);
    table.spans = next;
    proof {
        assert forall|i: int| 0 <= i < table.rows.len() implies (#[trigger] table.rows@[i]).len() == table.aligns.len() by {
            if i < at {
                assert(table.rows@[i] == rows0[i]);
            } else if i > at {
                assert(table.rows@[i] == rows0[i - 1]);
            }
        }
        assert forall|k: int| 0 <= k < table.spans.len() implies span_wf(#[trigger] table.spans@[k], table.rows.len() as int, table.aligns.len() as int) by {
            assert(table.spans@[k] == row_inserted(spans0[k], at as int));
            assert(span_wf(spans0[k], rows0.len() as int, table.aligns.len() as int));
        }
    }
}

/// Insert an empty column at `at`, aligned `Auto`; merged cells right of it
/// move right, a merged cell it falls inside grows by it.
pub fn insert_table_column(table: &mut TableEdit, at: usize)
    requires
        at <= old(table).aligns.len() < usize::MAX,
        table_wf(*old(table)),
    ensures
        grid_model(final(table).rows@) == grid_model(old(table).rows@).map_values(
            |r: Seq<Seq<char>>| r.insert(at as int, Seq::<char>::empty()),
        ),
        final(table).spans@ == old(table).spans@.map_values(|sp: TableSpan| column_inserted(sp, at as int)),
        final(table).aligns@ == old(table).aligns@.insert(at as int, ColumnAlign::Auto),
        final(table).span == old(table).span,
        final(table).row == old(table).row,
        final(table).column == old(table).column,
        table_wf(*final(table)),
{
    let ghost g0 = grid_model(table.rows@);
    let ghost rows0 = table.rows@;
    let ghost ncols0 = table.aligns.len();
    let mut rows: Vec<Vec<String>> = Vec::new();
    let mut i: usize = 0;
    while i < table.rows.len()
        invariant
            i <= table.rows.len(),
            table.rows@ == rows0,
            g0 == grid_model(rows0),
            at <= ncols0 == table.aligns.len(),
            forall|t: int| 0 <= t < rows0.len() ==> (#[trigger] rows0[t]).len() == ncols0,
            rows.len() == i,
            forall|t: int| 0 <= t < i ==> strings_model((#[trigger] rows@[t])@) == g0[t].insert(at as int, Seq::<char>::empty()),
            forall|t: int| 0 <= t < i ==> (#[trigger] rows@[t]).len() == ncols0 + 1,
        decreases table.rows.len() - i,
    {
        let mut r = copy_row(&table.rows[i]);
        assert(g0[i as int] == strings_model(rows0[i as int]@));
        r.insert(at, String::new());
        assert(strings_model(r@) =~= g0[i as int].insert(at as int, Seq::<char>::empty()));
        rows.push(r);
        i += 1;
    }
    table.rows = rows;
    assert(grid_model(table.rows@) =~= g0.map_values(|r: Seq<Seq<char>>| r.insert(at as int, Seq::<char>::empty())));
    table.aligns.insert(at, ColumnAlign::Auto);
    let ghost spans0 = table.spans@;
    let mut next: Vec<TableSpan> = Vec::new();
    let mut k: usize = 0;
    while k < table.spans.len()
        invariant
            k <= table.spans.len(),
            table.spans@ == spans0,
            table.aligns.len() == ncols0 + 1,
            at < table.aligns.len(),
            forall|t: int| 0 <= t < spans0.len() ==> span_wf(#[trigger] spans0[t], rows0.len() as int, ncols0 as int),
            next@ == spans0.take(k as int).map_values(|sp: TableSpan| column_inserted(sp, at as int)),
        decreases table.spans.len() - k,
    {
        let sp = table.spans[k];
        assert(span_wf(spans0[k as int], rows0.len() as int, ncols0 as int));
        let moved = if at <= sp.column {
            TableSpan { row: sp.row, column: sp.column + 1, row_span: sp.row_span, column_span: sp.column_span }
        } else if at < sp.column + sp.column_span {
            TableSpan { row: sp.row, column: sp.column, row_span: sp.row_span, column_span: sp.column_span + 1 }
        } else {
            sp
        };
        next.push(moved);
        assert(next@ =~= spans0.take(k + 1).map_values(|sp: TableSpan| column_inserted(sp, at as int)));
        k += 1;
    }
    assert(spans0.take(spans0.len() as int) =~= spans0);
    table.spans = next;
    proof {
        assert forall|k: int| 0 <= k < table.spans.len() implies span_wf(#[trigger] table.spans@[k], table.rows.len() as int, table.aligns.len() as int) by {
            assert(table.spans@[k] == column_inserted(spans0[k], at as int));
            assert(span_wf(spans0[k], rows0.len() as int, ncols0 as int));
        }
    }
}


/// A span after row `at` is deleted: moved up when below it, shrunk when it
/// covered it, gone when it was that row alone.
pub open spec fn row_deleted(sp: TableSpan, at: int) -> Option<TableSpan> {
    if at < sp.row {
        Some(TableSpan { row: (sp.row - 1) as usize, column: sp.column, row_span: sp.row_span, column_span: sp.column_span })
    } else if at >= sp.row + sp.row_span {
        Some(sp)
    } else if sp.row_span > 1 {
        Some(TableSpan { row: sp.row, column: sp.column, row_span: (sp.row_span - 1) as usize, column_span: sp.column_span })
    } else {
        None
    }
}

/// A span after column `at` is deleted.
pub open spec fn column_deleted(sp: TableSpan, at: int) -> Option<TableSpan> {
    if at < sp.column {
        Some(TableSpan { row: sp.row, column: (sp.column - 1) as usize, row_span: sp.row_span, column_span: sp.column_span })
    } else if at >= sp.column + sp.column_span {
        Some(sp)
    } else if sp.column_span > 1 {
        Some(TableSpan { row: sp.row, column: sp.column, row_span: sp.row_span, column_span: (sp.column_span - 1) as usize })
    } else {
        None
    }
}

pub open spec fn keep_some(s: Seq<Option<TableSpan>>) -> Seq<TableSpan>
    decreases s.len(),
{
    if s.len() == 0 {
        seq![]
    } else {
        keep_some(s.drop_last()) + match s.last() {
            Some(sp) => seq![sp],
            None => seq![],
        }
    }
}

/// Whether a merged cell anchored at `(r, c)` spans more rows than one.
pub open spec fn tall_anchor(spans: Seq<TableSpan>, r: int, c: int) -> bool {
    exists|k: int| 0 <= k < spans.len() && spans[k].row == r && spans[k].column == c && spans[k].row_span > 1
}

/// Whether a merged cell anchored at `(r, c)` spans more columns than one.
pub open spec fn wide_anchor(spans: Seq<TableSpan>, r: int, c: int) -> bool {
    exists|k: int| 0 <= k < spans.len() && spans[k].row == r && spans[k].column == c && spans[k].column_span > 1
}

/// The cells after row `at` is deleted: the text of a merged cell anchored
/// on that row moves down to the row that takes its place.
pub open spec fn grid_row_deleted(g: Seq<Seq<Seq<char>>>, spans: Seq<TableSpan>, at: int) -> Seq<Seq<Seq<char>>> {
    let g2 = g.remove(at);
    if at < g2.len() {
        g2.update(at, Seq::new(g2[at].len(), |c: int| if tall_anchor(spans, at, c) && c < g[at].len() { g[at][c] } else { g2[at][c] }))
    } else {
        g2
    }
}

/// The cells after column `at` is deleted: the text of a merged cell
/// anchored in that column moves right to the column that takes its place.
pub open spec fn grid_column_deleted(g: Seq<Seq<Seq<char>>>, spans: Seq<TableSpan>, at: int) -> Seq<Seq<Seq<char>>> {
    Seq::new(g.len(), |i: int| {
        let r2 = g[i].remove(at);
        if wide_anchor(spans, i, at) && at < r2.len() {
            r2.update(at, g[i][at])
        } else {
            r2
        }
    })
}

/// Delete row `at`. Merged cells below move up; one covering the row shrinks,
/// and when it was anchored on that row its text moves to the next row.
pub fn delete_table_row(table: &mut TableEdit, at: usize)
    requires
        at < old(table).rows.len(),
        table_wf(*old(table)),
    ensures
        grid_model(final(table).rows@) == grid_row_deleted(grid_model(old(table).rows@), old(table).spans@, at as int),
        final(table).spans@ == retained(keep_some(old(table).spans@.map_values(|sp: TableSpan| row_deleted(sp, at as int)))),
        final(table).aligns@ == old(table).aligns@,
        final(table).span == old(table).span,
        final(table).row == old(table).row,
        final(table).column == old(table).column,
{
    let ghost g0 = grid_model(table.rows@);
    let ghost spans0 = table.spans@;
    let ncols = table.aligns.len();
    let mut next: Vec<TableSpan> = Vec::new();
    let mut k: usize = 0;
    while k < table.spans.len()
        invariant
            k <= table.spans.len(),
            table.spans@ == spans0,
            at < table.rows.len(),
            forall|t: int| 0 <= t < spans0.len() ==> span_wf(#[trigger] spans0[t], table.rows.len() as int, ncols as int),
            next@ == keep_some(spans0.take(k as int).map_values(|sp: TableSpan| row_deleted(sp, at as int))),
        decreases table.spans.len() - k,
    {
        let sp = table.spans[k];
        assert(span_wf(spans0[k as int], table.rows.len() as int, ncols as int));
        let ghost before = spans0.take(k as int).map_values(|sp: TableSpan| row_deleted(sp, at as int));
        assert(spans0.take(k + 1).map_values(|sp: TableSpan| row_deleted(sp, at as int)).drop_last() =~= before);
        if at < sp.row {
            next.push(TableSpan { row: sp.row - 1, column: sp.column, row_span: sp.row_span, column_span: sp.column_span });
        } else if at >= sp.row + sp.row_span {
            next.push(sp);
        } else if sp.row_span > 1 {
            next.push(TableSpan { row: sp.row, column: sp.column, row_span: sp.row_span - 1, column_span: sp.column_span });
        }
        assert(next@ =~= keep_some(spans0.take(k + 1).map_values(|sp: TableSpan| row_deleted(sp, at as int))));
        k += 1;
    }
    assert(spans0.take(spans0.len() as int) =~= spans0);
    let old_row = copy_row(&table.rows[at]);
    let removed = table.rows.remove(at);
    let ghost g2 = g0.remove(at as int);
    assert(grid_model(table.rows@) =~= g2);
    if at < table.rows.len() {
        let mut row = copy_row(&table.rows[at]);
        let mut c: usize = 0;
        while c < row.len()
            invariant
                c <= row.len(),
                table.spans@ == spans0,
                at < g2.len(),
                g2 == g0.remove(at as int),
                g0[at as int] == strings_model(old_row@),
                row.len() == g2[at as int].len(),
                forall|t: int| 0 <= t < row.len() ==> (#[trigger] row@[t])@ == if t < c && tall_anchor(spans0, at as int, t)
                    && t < g0[at as int].len() {
                    g0[at as int][t]
                } else {
                    g2[at as int][t]
                },
            decreases row.len() - c,
        {
            let mut tall = false;
            let mut k: usize = 0;
            while k < table.spans.len()
                invariant
                    k <= table.spans.len(),
                    table.spans@ == spans0,
                    tall == exists|t: int| 0 <= t < k && spans0[t].row == at && spans0[t].column == c && spans0[t].row_span > 1,
                decreases table.spans.len() - k,
            {
                let sp = table.spans[k];
                if sp.row == at && sp.column == c && sp.row_span > 1 {
                    tall = true;
                }
                k += 1;
            }
            assert(tall == tall_anchor(spans0, at as int, c as int));
            if tall && c < old_row.len() {
                assert(strings_model(old_row@)[c as int] == old_row@[c as int]@);
                row.set(c, old_row[c].clone());
            }
            c += 1;
        }
        table.rows.set(at, row);
        proof {
            let target = grid_row_deleted(g0, spans0, at as int);
            assert(grid_model(table.rows@) =~= target) by {
                assert forall|i: int| 0 <= i < table.rows.len() implies grid_model(table.rows@)[i] == target[i] by {
                    if i == at {
                        assert(strings_model(row@) =~= target[i]);
                    }
                }
            }
        }
    }
    let mut kept = next;
    retain_real_spans(&mut kept);
    table.spans = kept;
}

/// Delete column `at`. Merged cells right of it move left; one covering the
/// column shrinks, and when it was anchored in that column its text moves to
/// the next column.
pub fn delete_table_column(table: &mut TableEdit, at: usize)
    requires
        at < old(table).aligns.len(),
        table_wf(*old(table)),
    ensures
        grid_model(final(table).rows@) == grid_column_deleted(grid_model(old(table).rows@), old(table).spans@, at as int),
        final(table).spans@ == retained(keep_some(old(table).spans@.map_values(|sp: TableSpan| column_deleted(sp, at as int)))),
        final(table).aligns@ == old(table).aligns@.remove(at as int),
        final(table).span == old(table).span,
        final(table).row == old(table).row,
        final(table).column == old(table).column,
{
    let ghost g0 = grid_model(table.rows@);
    let ghost rows0 = table.rows@;
    let ghost spans0 = table.spans@;
    let ncols = table.aligns.len();
    let mut next: Vec<TableSpan> = Vec::new();
    let mut k: usize = 0;
    while k < table.spans.len()
        invariant
            k <= table.spans.len(),
            table.spans@ == spans0,
            at < ncols,
            forall|t: int| 0 <= t < spans0.len() ==> span_wf(#[trigger] spans0[t], table.rows.len() as int, ncols as int),
            next@ == keep_some(spans0.take(k as int).map_values(|sp: TableSpan| column_deleted(sp, at as int))),
        decreases table.spans.len() - k,
    {
        let sp = table.spans[k];
        assert(span_wf(spans0[k as int], table.rows.len() as int, ncols as int));
        let ghost before = spans0.take(k as int).map_values(|sp: TableSpan| column_deleted(sp, at as int));
        assert(spans0.take(k + 1).map_values(|sp: TableSpan| column_deleted(sp, at as int)).drop_last() =~= before);
        if at < sp.column {
            next.push(TableSpan { row: sp.row, column: sp.column - 1, row_span: sp.row_span, column_span: sp.column_span });
        } else if at >= sp.column + sp.column_span {
            next.push(sp);
        } else if sp.column_span > 1 {
            next.push(TableSpan { row: sp.row, column: sp.column, row_span: sp.row_span, column_span: sp.column_span - 1 });
        }
        assert(next@ =~= keep_some(spans0.take(k + 1).map_values(|sp: TableSpan| column_deleted(sp, at as int))));
        k += 1;
    }
    assert(spans0.take(spans0.len() as int) =~= spans0);
    let ghost target = grid_column_deleted(g0, spans0, at as int);
    let mut rows: Vec<Vec<String>> = Vec::new();
    let mut i: usize = 0;
    while i < table.rows.len()
        invariant
            i <= table.rows.len(),
            table.rows@ == rows0,
            table.spans@ == spans0,
            g0 == grid_model(rows0),
            target == grid_column_deleted(g0, spans0, at as int),
            at < ncols,
            forall|t: int| 0 <= t < rows0.len() ==> (#[trigger] rows0[t]).len() == ncols,
            rows.len() == i,
            forall|t: int| 0 <= t < i ==> strings_model((#[trigger] rows@[t])@) == target[t],
        decreases table.rows.len() - i,
    {
        let mut wide = false;
        let mut k: usize = 0;
        while k < table.spans.len()
            invariant
                k <= table.spans.len(),
                table.spans@ == spans0,
                wide == exists|t: int| 0 <= t < k && spans0[t].row == i && spans0[t].column == at && spans0[t].column_span > 1,
            decreases table.spans.len() - k,
        {
            let sp = table.spans[k];
            if sp.row == i && sp.column == at && sp.column_span > 1 {
                wide = true;
            }
            k += 1;
        }
        assert(wide == wide_anchor(spans0, i as int, at as int));
        let mut r = copy_row(&table.rows[i]);
        assert(g0[i as int] == strings_model(rows0[i as int]@));
        let text = r.remove(at);
        if wide && at < r.len() {
            r.set(at, text);
        }
        proof {
            assert(strings_model(r@) =~= target[i as int]);
        }
        rows.push(r);
        i += 1;
    }
    table.rows = rows;
    assert(grid_model(table.rows@) =~= target);
    table.aligns.remove(at);
    let mut kept = next;
    retain_real_spans(&mut kept);
    table.spans = kept;
}


/// The cells a merge takes in: the row under the merged cell, or the column
/// right of it.
pub open spec fn merge_target(span: TableSpan, down: bool, r: int, c: int) -> bool {
    if down {
        r == span.row + span.row_span && span.column <= c < span.column + span.column_span
    } else {
        span.row <= r < span.row + span.row_span && c == span.column + span.column_span
    }
}

/// Why a merge cannot be made, if it cannot.
pub open spec fn merge_error(g: Seq<Seq<Seq<char>>>, spans: Seq<TableSpan>, columns: int, span: TableSpan, down: bool) -> Option<Seq<char>> {
    if down && span.row == 0 {
        Some("表头不能与正文纵向合并。"@)
    } else if down && span.row + span.row_span >= g.len() {
        Some("下方没有可合并的单元格。"@)
    } else if !down && span.column + span.column_span >= columns {
        Some("右侧没有可合并的单元格。"@)
    } else if exists|r: int, c: int| #[trigger] merge_target(span, down, r, c) && (trim(cell_at(g, r, c)).len() != 0
        || span_at(spans, r, c) is Some) {
        Some("目标单元格含有内容或已经合并，请先清空或拆分。"@)
    } else {
        None
    }
}

/// The first span anchored at `(r, c)`, or -1.
pub open spec fn anchor_index(spans: Seq<TableSpan>, r: int, c: int) -> int
    decreases spans.len(),
{
    if spans.len() == 0 {
        -1
    } else if spans[0].row == r && spans[0].column == c {
        0
    } else {
        let k = anchor_index(spans.drop_first(), r, c);
        if k < 0 {
            -1
        } else {
            k + 1
        }
    }
}

/// The spans after a merge: the span anchored where `span` is grows by one
/// row or column; without one, `span` grown by it is added.
pub open spec fn merged_spans(spans: Seq<TableSpan>, span: TableSpan, down: bool) -> Seq<TableSpan> {
    let k = anchor_index(spans, span.row as int, span.column as int);
    let rows_more: int = if down { 1 } else { 0 };
    let columns_more: int = if down { 0 } else { 1 };
    if k >= 0 {
        let e = spans[k];
        spans.update(k, TableSpan { row: e.row, column: e.column, row_span: (e.row_span + rows_more) as usize, column_span: (e.column_span + columns_more) as usize })
    } else {
        spans.push(TableSpan { row: span.row, column: span.column, row_span: (span.row_span + rows_more) as usize, column_span: (span.column_span + columns_more) as usize })
    }
}

proof fn lemma_anchor_index(spans: Seq<TableSpan>, r: int, c: int, k: int)
    requires
        0 <= k <= spans.len(),
        forall|t: int| 0 <= t < k ==> !((#[trigger] spans[t]).row == r && spans[t].column == c),
    ensures
        k < spans.len() && spans[k].row == r && spans[k].column == c ==> anchor_index(spans, r, c) == k,
        k == spans.len() ==> anchor_index(spans, r, c) == -1,
    decreases k,
{
    if k > 0 {
        assert(!(spans[0].row == r && spans[0].column == c));
        assert forall|t: int| 0 <= t < k - 1 implies !((#[trigger] spans.drop_first()[t]).row == r && spans.drop_first()[t].column == c) by {
            assert(spans.drop_first()[t] == spans[t + 1]);
        }
        lemma_anchor_index(spans.drop_first(), r, c, k - 1);
        if k < spans.len() {
            assert(spans.drop_first()[k - 1] == spans[k]);
        }
    }
}

fn cell_is_blank(cell: &String) -> (r: bool)
    ensures
        r == (trim(cell@).len() == 0),
{
    let v = chars_of(cell.as_str());
    let n = v.len();
    let (a, b) = crate::text::trim_bounds(&v, 0, n);
    assert(v@.subrange(0, n as int) =~= v@);
    a == b
}

/// Merge the cell `span` (a merged cell, or a single one) with the next row
/// (`down`) or the next column. Refused with a message when the header would
/// merge with the body, when there is no row or column to take in, or when a
/// cell to take in has text or is merged already.
pub fn extend_span(table: &mut TableEdit, span: TableSpan, down: bool) -> (r: Result<(), &'static str>)
    requires
        table_wf(*old(table)),
        span_wf(span, old(table).rows.len() as int, old(table).aligns.len() as int),
        old(table).rows.len() < usize::MAX,
        old(table).aligns.len() < usize::MAX,
    ensures
        match r {
            Ok(()) => merge_error(grid_model(old(table).rows@), old(table).spans@, old(table).aligns.len() as int, span, down) is None
                && final(table).spans@ == retained(merged_spans(old(table).spans@, span, down))
                && final(table).rows@ == old(table).rows@ && final(table).aligns@ == old(table).aligns@
                && final(table).span == old(table).span && final(table).row == old(table).row
                && final(table).column == old(table).column,
            Err(message) => merge_error(grid_model(old(table).rows@), old(table).spans@, old(table).aligns.len() as int, span, down)
                == Some(message@) && *final(table) == *old(table),
        },
{
    let ghost g = grid_model(table.rows@);
    let nrows = table.rows.len();
    let ncols = table.columns();
    let (r_lo, r_hi, c_lo, c_hi) = if down {
        if span.row == 0 {
            return Err("表头不能与正文纵向合并。");
        }
        let target = span.row + span.row_span;
        if target >= nrows {
            return Err("下方没有可合并的单元格。");
        }
        (target, target + 1, span.column, span.column + span.column_span)
    } else {
        let target = span.column + span.column_span;
        if target >= ncols {
            return Err("右侧没有可合并的单元格。");
        }
        (span.row, span.row + span.row_span, target, target + 1)
    };
    assert forall|r: int, c: int| #[trigger] merge_target(span, down, r, c) <==> (r_lo <= r < r_hi && c_lo <= c < c_hi) by {}
    let mut row = r_lo;
    while row < r_hi
        invariant
            r_lo <= row <= r_hi <= nrows == table.rows.len(),
            c_lo <= c_hi,
            g.len() == nrows,
            down ==> span.row != 0 && span.row + span.row_span < nrows,
            !down ==> span.column + span.column_span < ncols,
            forall|r: int, c: int| #[trigger] merge_target(span, down, r, c) <==> (r_lo <= r < r_hi && c_lo <= c < c_hi),
            c_hi <= ncols == table.aligns.len(),
            g == grid_model(table.rows@),
            table_wf(*table),
            forall|r: int, c: int| r_lo <= r < row && c_lo <= c < c_hi ==> trim(#[trigger] cell_at(g, r, c)).len() == 0,
            forall|r: int, c: int| r_lo <= r < row && c_lo <= c < c_hi ==> (#[trigger] span_at(table.spans@, r, c)) is None,
        decreases r_hi - row,
    {
        let mut column = c_lo;
        while column < c_hi
            invariant
                r_lo <= row < r_hi <= nrows == table.rows.len(),
                c_lo <= column <= c_hi <= ncols == table.aligns.len(),
                g.len() == nrows,
                down ==> span.row != 0 && span.row + span.row_span < nrows,
                !down ==> span.column + span.column_span < ncols,
                forall|r: int, c: int| #[trigger] merge_target(span, down, r, c) <==> (r_lo <= r < r_hi && c_lo <= c < c_hi),
                g == grid_model(table.rows@),
                table_wf(*table),
                forall|r: int, c: int| r_lo <= r < row && c_lo <= c < c_hi ==> trim(#[trigger] cell_at(g, r, c)).len() == 0,
                forall|r: int, c: int| r_lo <= r < row && c_lo <= c < c_hi ==> (#[trigger] span_at(table.spans@, r, c)) is None,
                forall|c: int| c_lo <= c < column ==> trim(#[trigger] cell_at(g, row as int, c)).len() == 0,
                forall|c: int| c_lo <= c < column ==> (#[trigger] span_at(table.spans@, row as int, c)) is None,
            decreases c_hi - column,
        {
            assert(table.rows@[row as int].len() == ncols);
            assert(g[row as int] == strings_model(table.rows@[row as int]@));
            assert(cell_at(g, row as int, column as int) == table.rows@[row as int]@[column as int]@);
            let blank = cell_is_blank(&table.rows[row][column]);
            let sl = table.spans.as_slice();
            assert(sl@ == table.spans@);
            let spanned = table_span_at(sl, row, column);
            if !blank || spanned.is_some() {
                proof {
                    assert(merge_target(span, down, row as int, column as int));
                }
                return Err("目标单元格含有内容或已经合并，请先清空或拆分。");
            }
            assert(trim(cell_at(g, row as int, column as int)).len() == 0);
            assert(span_at(table.spans@, row as int, column as int) is None);
            column += 1;
        }
        row += 1;
    }
    proof {
        if exists|r: int, c: int| #[trigger] merge_target(span, down, r, c) && (trim(cell_at(g, r, c)).len() != 0
            || span_at(table.spans@, r, c) is Some) {
            let (r, c) = choose|r: int, c: int| #[trigger] merge_target(span, down, r, c) && (trim(cell_at(g, r, c)).len() != 0
                || span_at(table.spans@, r, c) is Some);
            assert(r_lo <= r < r_hi && c_lo <= c < c_hi);
            assert(trim(cell_at(g, r, c)).len() == 0);
        }
    }
    let ghost spans0 = table.spans@;
    let mut k: usize = 0;
    while k < table.spans.len() && !(table.spans[k].row == span.row && table.spans[k].column == span.column)
        invariant
            k <= table.spans.len(),
            table.spans@ == spans0,
            forall|t: int| 0 <= t < k ==> !((#[trigger] spans0[t]).row == span.row && spans0[t].column == span.column),
        decreases table.spans.len() - k,
    {
        k += 1;
    }
    proof {
        lemma_anchor_index(spans0, span.row as int, span.column as int, k as int);
    }
    let mut spans = Vec::new();
    let mut t: usize = 0;
    while t < table.spans.len()
        invariant
            t <= table.spans.len(),
            table.spans@ == spans0,
            spans@ == spans0.take(t as int),
        decreases table.spans.len() - t,
    {
        spans.push(table.spans[t]);
        assert(spans@ =~= spans0.take(t + 1));
        t += 1;
    }
    assert(spans0.take(spans0.len() as int) =~= spans0);
    if k < spans.len() {
        let e = spans[k];
        assert(span_wf(spans0[k as int], nrows as int, ncols as int));
        let grown = if down {
            TableSpan { row: e.row, column: e.column, row_span: e.row_span + 1, column_span: e.column_span }
        } else {
            TableSpan { row: e.row, column: e.column, row_span: e.row_span, column_span: e.column_span + 1 }
        };
        spans.set(k, grown);
    } else {
        let added = if down {
            TableSpan { row: span.row, column: span.column, row_span: span.row_span + 1, column_span: span.column_span }
        } else {
            TableSpan { row: span.row, column: span.column, row_span: span.row_span, column_span: span.column_span + 1 }
        };
        spans.push(added);
    }
    assert(spans@ =~= merged_spans(spans0, span, down));
    retain_real_spans(&mut spans);
    table.spans = spans;
    Ok(())
}


/// A table of `rows` empty rows (the header included) and `columns` columns.
pub open spec fn blank_grid(rows: nat, columns: nat) -> Seq<Seq<Seq<char>>> {
    Seq::new(rows, |i: int| empty_row(columns))
}

proof fn lemma_blank_needs(g: Seq<Seq<Seq<char>>>, columns: nat, c: int, k: int)
    requires
        g == blank_grid(g.len(), columns),
        0 <= k <= g.len(),
    ensures
        need_upto(g, seq![], c, k) == 0,
    decreases k,
{
    if k > 0 {
        lemma_blank_needs(g, columns, c, k - 1);
        assert(cell_at(g, k - 1, c) =~= Seq::<char>::empty());
        assert(display_width_of(Seq::<char>::empty()) == 0);
    }
}

proof fn lemma_sum_of_const(ws: Seq<nat>, v: nat, k: int)
    requires
        0 <= k <= ws.len(),
        forall|t: int| 0 <= t < ws.len() ==> ws[t] == v,
    ensures
        sum_of(ws, 0, k) == v * k,
    decreases k,
{
    if k > 0 {
        lemma_sum_of_const(ws, v, k - 1);
        assert(ws[k - 1] == v);
        assert(v * k == v * (k - 1) + v) by (nonlinear_arith);
    } else {
        assert(v * 0 == 0) by (nonlinear_arith);
    }
}

/// An empty table of `rows` rows (the header included; at least one) and
/// `columns` columns (at least two: GFM reads no one-column table).
pub fn blank_table(rows: usize, columns: usize) -> (r: String)
    requires
        columns <= 0x0fff_ffff,
    ensures
        ({
            let rr: nat = if rows >= 1 { rows as nat } else { 1 };
            let cc: nat = if columns >= 2 { columns as nat } else { 2 };
            r@ == rendered_table(blank_grid(rr, cc), Seq::new(cc, |c: int| ColumnAlign::Auto), seq![])
        }),
{
    let cc = if columns >= 2 {
        columns
    } else {
        2
    };
    let rr = if rows >= 1 {
        rows
    } else {
        1
    };
    let mut cells: Vec<Vec<String>> = Vec::new();
    let mut i: usize = 0;
    while i < rr
        invariant
            i <= rr,
            cells.len() == i,
            forall|t: int| 0 <= t < i ==> strings_model((#[trigger] cells@[t])@) == empty_row(cc as nat),
        decreases rr - i,
    {
        cells.push(empty_cells(cc));
        i += 1;
    }
    let mut aligns: Vec<ColumnAlign> = Vec::new();
    let mut c: usize = 0;
    while c < cc
        invariant
            c <= cc,
            aligns.len() == c,
            forall|t: int| 0 <= t < c ==> aligns@[t] == ColumnAlign::Auto,
        decreases cc - c,
    {
        aligns.push(ColumnAlign::Auto);
        c += 1;
    }
    let ghost g = grid_model(cells@);
    proof {
        assert(g =~= blank_grid(rr as nat, cc as nat)) by {
            assert forall|t: int| 0 <= t < rr implies g[t] == blank_grid(rr as nat, cc as nat)[t] by {
                assert(strings_model(cells@[t]@) == empty_row(cc as nat));
            }
        }
        assert(aligns@ =~= Seq::new(cc as nat, |c: int| ColumnAlign::Auto));
        let ws = widths_model(g, aligns@, seq![]);
        assert forall|t: int| 0 <= t < ws.len() implies ws[t] == 3 by {
            lemma_blank_needs(g, cc as nat, t, g.len() as int);
        }
        lemma_sum_of_const(ws, 3, cc as int);
    }
    let sl = cells.as_slice();
    let al = aligns.as_slice();
    assert(sl@ == cells@ && al@ == aligns@);
    render_table(sl, al)
}


// ---------------------------------------------------------------------------
// Reading a rendered row back.

/// A cell text that survives a round trip through a row: trimmed, without a
/// pipe or a line break.
pub open spec fn plain_cell(x: Seq<char>) -> bool {
    &&& trim(x) == x
    &&& forall|k: int| 0 <= k < x.len() ==> #[trigger] x[k] != '|' && x[k] != '\n'
}

pub open spec fn no_pipe(x: Seq<char>) -> bool {
    no_sep(x, '|')
}

/// `x` holds no `sep`.
pub open spec fn no_sep(x: Seq<char>, sep: char) -> bool {
    forall|k: int| 0 <= k < x.len() ==> #[trigger] x[k] != sep
}

proof fn lemma_split_no_sep(x: Seq<char>, sep: char)
    requires
        no_sep(x, sep),
    ensures
        split_at_char(x, sep) == seq![x],
    decreases x.len(),
{
    if x.len() > 0 {
        lemma_split_no_sep(x.drop_last(), sep);
        assert(x[x.len() - 1] != sep);
        assert(x.drop_last().push(x.last()) =~= x);
    } else {
        assert(x =~= Seq::<char>::empty());
    }
}

proof fn lemma_split_append(a: Seq<char>, x: Seq<char>, sep: char)
    requires
        no_sep(x, sep),
    ensures
        split_at_char(a + x, sep) == split_at_char(a, sep).update(
            split_at_char(a, sep).len() - 1,
            split_at_char(a, sep).last() + x,
        ),
    decreases x.len(),
{
    crate::text::lemma_split_at_char_nonempty(a, sep);
    if x.len() == 0 {
        assert(a + x =~= a);
        let p = split_at_char(a, sep);
        assert(p.last() + x =~= p.last());
        assert(p.update(p.len() - 1, p.last()) =~= p);
    } else {
        let y = x.drop_last();
        lemma_split_append(a, y, sep);
        assert((a + x).drop_last() =~= a + y);
        assert((a + x).last() == x.last());
        let p = split_at_char(a, sep);
        let q = split_at_char(a + y, sep);
        assert(x[x.len() - 1] != sep);
        assert(q.len() == p.len());
        assert(p.last() + y + seq![x.last()] =~= p.last() + x);
        assert(split_at_char(a + x, sep) == q.update(q.len() - 1, q.last().push(x.last())));
        assert(q.last() == p.last() + y);
        assert(q.last().push(x.last()) =~= p.last() + x);
        assert(q.update(q.len() - 1, p.last() + x) =~= p.update(p.len() - 1, p.last() + x));
    }
}

/// Pieces without `sep` joined by `sep` split back into the same pieces.
pub proof fn lemma_split_join_sep(ps: Seq<Seq<char>>, sep: char)
    requires
        ps.len() >= 1,
        forall|c: int| 0 <= c < ps.len() ==> no_sep(#[trigger] ps[c], sep),
    ensures
        split_at_char(join_text(ps, seq![sep]), sep) == ps,
    decreases ps.len(),
{
    if ps.len() == 1 {
        lemma_split_no_sep(ps[0], sep);
        assert(seq![ps[0]] =~= ps);
    } else {
        let front = ps.drop_last();
        assert forall|c: int| 0 <= c < front.len() implies no_sep(#[trigger] front[c], sep) by {
            assert(front[c] == ps[c]);
        }
        lemma_split_join_sep(front, sep);
        let j = join_text(front, seq![sep]);
        let withsep = j + seq![sep];
        assert(withsep.drop_last() =~= j);
        assert(withsep.last() == sep);
        assert(split_at_char(withsep, sep) == front.push(seq![]));
        assert(no_sep(ps.last(), sep));
        lemma_split_append(withsep, ps.last(), sep);
        assert(join_text(ps, seq![sep]) == withsep + ps.last());
        assert(front.push(seq![]).update(front.len() as int, Seq::<char>::empty() + ps.last()) =~= ps);
    }
}

proof fn lemma_split_join(ps: Seq<Seq<char>>)
    requires
        ps.len() >= 1,
        forall|c: int| 0 <= c < ps.len() ==> no_pipe(#[trigger] ps[c]),
    ensures
        split_at_char(join_text(ps, "|"@), '|') == ps,
{
    reveal_strlit("|");
    assert("|"@ =~= seq!['|']);
    assert forall|c: int| 0 <= c < ps.len() implies no_sep(#[trigger] ps[c], '|') by {
        assert(no_pipe(ps[c]));
    }
    lemma_split_join_sep(ps, '|');
}

/// The piece column `c` of a row without merged cells writes between its
/// pipes.
pub open spec fn padded_piece(g: Seq<Seq<Seq<char>>>, ws: Seq<nat>, i: int, c: int) -> Seq<char> {
    let text = cell_at(g, i, c);
    let w = display_width_of(text);
    seq![' '] + text + spaces(if ws[c] >= w { (ws[c] - w) as nat } else { 0 }) + seq![' ']
}

proof fn lemma_row_pieces_join(g: Seq<Seq<Seq<char>>>, ws: Seq<nat>, i: int, k: int)
    requires
        1 <= k <= ws.len(),
    ensures
        row_pieces(g, seq![], ws, i, k) == join_text(Seq::new(k as nat, |c: int| padded_piece(g, ws, i, c)), "|"@) + "|"@,
    decreases k,
{
    reveal_strlit("|");
    let ps = Seq::new(k as nat, |c: int| padded_piece(g, ws, i, c));
    assert(span_at(seq![], i, k - 1) is None);
    assert(sum_of(ws, k - 1, k - 1) == 0);
    assert(sum_of(ws, k - 1, k) == ws[k - 1]);
    assert(row_piece(g, seq![], ws, i, k - 1) =~= padded_piece(g, ws, i, k - 1) + "|"@);
    if k == 1 {
        assert(row_pieces(g, seq![], ws, i, 0) =~= Seq::<char>::empty());
        assert(join_text(ps, "|"@) == ps[0]);
        assert(row_pieces(g, seq![], ws, i, 1) =~= join_text(ps, "|"@) + "|"@);
    } else {
        lemma_row_pieces_join(g, ws, i, k - 1);
        let front = Seq::new((k - 1) as nat, |c: int| padded_piece(g, ws, i, c));
        assert(ps.drop_last() =~= front);
        assert(row_pieces(g, seq![], ws, i, k) =~= join_text(ps, "|"@) + "|"@);
    }
}

proof fn lemma_trim_padded(x: Seq<char>, n: nat)
    requires
        trim(x) == x,
    ensures
        trim(seq![' '] + x + spaces(n) + seq![' ']) == x,
{
    let p = seq![' '] + x + spaces(n) + seq![' '];
    assert(p.drop_first() =~= x + spaces(n) + seq![' ']);
    let q = x + spaces(n) + seq![' '];
    if x.len() == 0 {
        lemma_all_spaces_trim(q);
        assert(trim_start(p) == trim_start(q));
        assert(trim(p) =~= x);
    } else {
        lemma_trim_facts(x);
        assert(trim_start(p) == trim_start(q));
        assert(q[0] == x[0]);
        assert(trim_start(q) == q);
        lemma_trim_end_spaces(x, n);
        assert(trim_end(q) == x);
    }
}

proof fn lemma_all_spaces_trim(q: Seq<char>)
    requires
        forall|k: int| 0 <= k < q.len() ==> #[trigger] q[k] == ' ',
    ensures
        trim_start(q) =~= Seq::<char>::empty(),
    decreases q.len(),
{
    if q.len() > 0 {
        assert forall|k: int| 0 <= k < q.drop_first().len() implies #[trigger] q.drop_first()[k] == ' ' by {
            assert(q.drop_first()[k] == q[k + 1]);
        }
        lemma_all_spaces_trim(q.drop_first());
    }
}

proof fn lemma_trim_facts(x: Seq<char>)
    requires
        trim(x) == x,
        x.len() > 0,
    ensures
        !is_ws(x[0]),
        !is_ws(x.last()),
{
    lemma_trim_start_len(x);
    lemma_trim_end_len(trim_start(x));
    assert(trim_start(x) == x);
    assert(trim_end(x) == x);
    if is_ws(x[0]) {
        lemma_trim_start_len(x.drop_first());
    }
    if is_ws(x.last()) {
        lemma_trim_end_len(x.drop_last());
    }
}

proof fn lemma_trim_start_len(s: Seq<char>)
    ensures
        trim_start(s).len() <= s.len(),
        trim_start(s).len() == s.len() ==> trim_start(s) == s,
    decreases s.len(),
{
    if s.len() > 0 && is_ws(s[0]) {
        lemma_trim_start_len(s.drop_first());
    }
}

proof fn lemma_trim_end_len(s: Seq<char>)
    ensures
        trim_end(s).len() <= s.len(),
        trim_end(s).len() == s.len() ==> trim_end(s) == s,
    decreases s.len(),
{
    if s.len() > 0 && is_ws(s.last()) {
        lemma_trim_end_len(s.drop_last());
    }
}

proof fn lemma_trim_end_spaces(x: Seq<char>, n: nat)
    requires
        x.len() > 0,
        !is_ws(x.last()),
    ensures
        trim_end(x + spaces(n) + seq![' ']) == x,
    decreases n,
{
    let q = x + spaces(n) + seq![' '];
    assert(q.drop_last() =~= x + spaces(n));
    if n == 0 {
        assert(x + spaces(0) =~= x);
        assert(trim_end(x) == x);
    } else {
        assert(x + spaces(n) =~= x + spaces((n - 1) as nat) + seq![' ']);
        lemma_trim_end_spaces(x, (n - 1) as nat);
    }
}

proof fn lemma_framed_body(j: Seq<char>)
    ensures
        row_body(seq!['|'] + j + seq!['|']) == j,
{
    let line = seq!['|'] + j + seq!['|'];
    assert(line[0] == '|' && line.last() == '|');
    lemma_trim_no_ws_ends(line);
    assert(line.drop_first() =~= j + seq!['|']);
    assert((j + seq!['|']).drop_last() =~= j);
}

/// A rendered row of a table without merged cells reads back as its cells
/// when every cell is plain; no cell reads as covered from the left, and
/// none as covered from above unless its text is `^^` itself.
pub proof fn lemma_row_reads_back(g: Seq<Seq<Seq<char>>>, ws: Seq<nat>, i: int)
    requires
        0 <= i < g.len(),
        ws.len() >= 1,
        forall|c: int| 0 <= c < ws.len() ==> plain_cell(#[trigger] cell_at(g, i, c)),
    ensures
        row_cells(row_line(g, seq![], ws, i)) == Seq::new(ws.len(), |c: int| cell_at(g, i, c)),
        forall|c: int| 0 <= c < ws.len() ==> !left_marker(#[trigger] row_line(g, seq![], ws, i), c),
        forall|c: int|
            0 <= c < ws.len() && cell_at(g, i, c) != seq!['^', '^'] ==> !up_marker(row_line(g, seq![], ws, i), i, c)
                && parsed_cell(row_line(g, seq![], ws, i), i, c) == #[trigger] cell_at(g, i, c),
{
    reveal_strlit("|");
    let n = ws.len() as int;
    let ps = Seq::new(n as nat, |c: int| padded_piece(g, ws, i, c));
    lemma_row_pieces_join(g, ws, i, n);
    let j = join_text(ps, "|"@);
    let line = row_line(g, seq![], ws, i);
    assert(line =~= seq!['|'] + j + seq!['|']);
    lemma_framed_body(j);
    assert forall|c: int| 0 <= c < ps.len() implies no_pipe(#[trigger] ps[c]) by {
        let x = cell_at(g, i, c);
        assert(plain_cell(x));
        let w = display_width_of(x);
        let pad = spaces(if ws[c] >= w { (ws[c] - w) as nat } else { 0 });
        assert forall|k: int| 0 <= k < ps[c].len() implies #[trigger] ps[c][k] != '|' by {
            if 1 <= k < 1 + x.len() {
                assert(ps[c][k] == x[k - 1]);
            } else if 1 + x.len() <= k < 1 + x.len() + pad.len() {
                assert(ps[c][k] == pad[k - 1 - x.len()]);
            }
        }
    }
    lemma_split_join(ps);
    assert(raw_pieces(line) == ps);
    assert forall|c: int| 0 <= c < n implies trim(#[trigger] ps[c]) == cell_at(g, i, c) by {
        let x = cell_at(g, i, c);
        assert(plain_cell(x));
        let w = display_width_of(x);
        lemma_trim_padded(x, if ws[c] >= w { (ws[c] - w) as nat } else { 0 });
    }
    assert(row_cells(line) =~= Seq::new(ws.len(), |c: int| cell_at(g, i, c)));
    assert forall|c: int| 0 <= c < ws.len() implies !left_marker(#[trigger] row_line(g, seq![], ws, i), c) by {
        assert(ps[c].len() >= 2);
    }
    assert forall|c: int|
        0 <= c < ws.len() && cell_at(g, i, c) != seq!['^', '^'] implies !up_marker(row_line(g, seq![], ws, i), i, c)
            && parsed_cell(row_line(g, seq![], ws, i), i, c) == #[trigger] cell_at(g, i, c) by {
        assert(trim(ps[c]) == cell_at(g, i, c));
        assert(ps[c].len() >= 2);
    }
}

proof fn lemma_separator_pieces_join(aligns: Seq<ColumnAlign>, ws: Seq<nat>, k: int)
    requires
        1 <= k <= aligns.len(),
        aligns.len() == ws.len(),
    ensures
        separator_pieces(aligns, ws, k) == seq!['|'] + join_text(
            Seq::new(k as nat, |c: int| seq![' '] + aligns[c].rendered(ws[c]) + seq![' ']),
            "|"@,
        ),
    decreases k,
{
    reveal_strlit("|");
    let ps = Seq::new(k as nat, |c: int| seq![' '] + aligns[c].rendered(ws[c]) + seq![' ']);
    if k == 1 {
        assert(separator_pieces(aligns, ws, 0) =~= Seq::<char>::empty());
        assert(separator_pieces(aligns, ws, 1) =~= seq!['|'] + ps[0]);
    } else {
        lemma_separator_pieces_join(aligns, ws, k - 1);
        let front = Seq::new((k - 1) as nat, |c: int| seq![' '] + aligns[c].rendered(ws[c]) + seq![' ']);
        assert(ps.drop_last() =~= front);
        assert(separator_pieces(aligns, ws, k) =~= seq!['|'] + join_text(ps, "|"@));
    }
}

/// The separator row of a rendered table reads as a separator row again, and
/// its cells give back the alignments.
pub proof fn lemma_separator_reads_back(aligns: Seq<ColumnAlign>, ws: Seq<nat>)
    requires
        aligns.len() == ws.len() >= 2,
        forall|c: int| 0 <= c < ws.len() ==> #[trigger] ws[c] >= aligns[c].colons() + 3,
    ensures
        separator_line(separator_row(aligns, ws)),
        row_cells(separator_row(aligns, ws)).map_values(|cell: Seq<char>| align_of_cell(cell)) == aligns,
{
    reveal_strlit("|");
    let n = aligns.len() as int;
    let ps = Seq::new(n as nat, |c: int| seq![' '] + aligns[c].rendered(ws[c]) + seq![' ']);
    lemma_separator_pieces_join(aligns, ws, n);
    let j = join_text(ps, "|"@);
    let line = separator_row(aligns, ws);
    assert(line =~= seq!['|'] + j + seq!['|']);
    lemma_framed_body(j);
    assert forall|c: int| 0 <= c < n implies no_pipe(#[trigger] ps[c]) && trim(ps[c]) == aligns[c].rendered(ws[c]) by {
        let r = aligns[c].rendered(ws[c]);
        lemma_rendered_separator(aligns[c], ws[c]);
        lemma_rendered_shape(aligns[c], ws[c]);
        assert(ps[c] =~= seq![' '] + r + spaces(0) + seq![' ']);
        lemma_trim_padded(r, 0);
        assert forall|k: int| 0 <= k < ps[c].len() implies #[trigger] ps[c][k] != '|' by {
            if 1 <= k < 1 + r.len() {
                assert(ps[c][k] == r[k - 1]);
            }
        }
    }
    lemma_split_join(ps);
    let cells = row_cells(line);
    assert(cells =~= Seq::new(n as nat, |c: int| aligns[c].rendered(ws[c])));
    assert forall|c: int| 0 <= c < cells.len() implies #[trigger] separator_cell(cells[c]) by {
        lemma_rendered_separator(aligns[c], ws[c]);
    }
    assert(cells.map_values(|cell: Seq<char>| align_of_cell(cell)) =~= aligns) by {
        assert forall|c: int| 0 <= c < n implies align_of_cell(#[trigger] cells[c]) == aligns[c] by {
            lemma_rendered_separator(aligns[c], ws[c]);
        }
    }
}

proof fn lemma_rendered_shape(align: ColumnAlign, width: nat)
    requires
        width >= align.colons() + 3,
    ensures
        trim(align.rendered(width)) == align.rendered(width),
        forall|k: int| 0 <= k < align.rendered(width).len() ==> #[trigger] align.rendered(width)[k] == '-'
            || align.rendered(width)[k] == ':',
{
    let n = (width - align.colons()) as nat;
    let d = dashes(n);
    let r = align.rendered(width);
    assert(d[0] == '-' && d.last() == '-');
    match align {
        ColumnAlign::Auto => {
            assert(r == d);
        },
        ColumnAlign::Left => {
            assert(r == seq![':'] + d);
            assert(r.last() == '-');
            assert forall|k: int| 0 <= k < r.len() implies #[trigger] r[k] == '-' || r[k] == ':' by {
                if k > 0 {
                    assert(r[k] == d[k - 1]);
                }
            }
        },
        ColumnAlign::Right => {
            assert(r == d + seq![':']);
            assert(r[0] == '-');
            assert forall|k: int| 0 <= k < r.len() implies #[trigger] r[k] == '-' || r[k] == ':' by {
                if k < d.len() {
                    assert(r[k] == d[k]);
                }
            }
        },
        ColumnAlign::Center => {
            assert(r == seq![':'] + d + seq![':']);
            assert forall|k: int| 0 <= k < r.len() implies #[trigger] r[k] == '-' || r[k] == ':' by {
                if 0 < k < r.len() - 1 {
                    assert(r[k] == d[k - 1]);
                }
            }
        },
    }
    lemma_trim_no_ws_ends(r);
}


proof fn lemma_count_concat(a: Seq<char>, b: Seq<char>, ch: char)
    ensures
        crate::markdown::count_of(a + b, ch) == crate::markdown::count_of(a, ch) + crate::markdown::count_of(b, ch),
    decreases b.len(),
{
    if b.len() == 0 {
        assert(a + b =~= a);
    } else {
        lemma_count_concat(a, b.drop_last(), ch);
        assert((a + b).drop_last() =~= a + b.drop_last());
    }
}

/// A line framed by pipes is a table line.
proof fn lemma_framed_table_line(j: Seq<char>)
    ensures
        table_source_line(seq!['|'] + j + seq!['|']),
{
    let line = seq!['|'] + j + seq!['|'];
    assert(line[0] == '|' && line.last() == '|');
    lemma_trim_no_ws_ends(line);
    lemma_count_concat(seq!['|'] + j, seq!['|'], '|');
    lemma_count_concat(seq!['|'], j, '|');
    assert(seq!['|'].drop_last() =~= Seq::<char>::empty());
    assert(seq!['|'].drop_last() =~= Seq::<char>::empty());
}

proof fn lemma_join_no_sep(ps: Seq<Seq<char>>, sep: Seq<char>, ch: char)
    requires
        no_sep(sep, ch),
        forall|c: int| 0 <= c < ps.len() ==> no_sep(#[trigger] ps[c], ch),
    ensures
        no_sep(join_text(ps, sep), ch),
    decreases ps.len(),
{
    if ps.len() > 1 {
        let front = ps.drop_last();
        assert forall|c: int| 0 <= c < front.len() implies no_sep(#[trigger] front[c], ch) by {
            assert(front[c] == ps[c]);
        }
        lemma_join_no_sep(front, sep, ch);
        let j = join_text(front, sep);
        let all = j + sep + ps.last();
        assert(no_sep(ps.last(), ch));
        assert forall|k: int| 0 <= k < all.len() implies #[trigger] all[k] != ch by {
            if k < j.len() {
                assert(all[k] == j[k]);
            } else if k < j.len() + sep.len() {
                assert(all[k] == sep[k - j.len()]);
            } else {
                assert(all[k] == ps.last()[k - j.len() - sep.len()]);
            }
        }
    } else if ps.len() == 1 {
        assert(no_sep(ps[0], ch));
    }
}

proof fn lemma_framed_no_newline(j: Seq<char>)
    requires
        no_sep(j, '\n'),
    ensures
        no_sep(seq!['|'] + j + seq!['|'], '\n'),
        strip_cr(seq!['|'] + j + seq!['|']) == seq!['|'] + j + seq!['|'],
{
    let line = seq!['|'] + j + seq!['|'];
    assert forall|k: int| 0 <= k < line.len() implies #[trigger] line[k] != '\n' by {
        if 1 <= k < 1 + j.len() {
            assert(line[k] == j[k - 1]);
        }
    }
}

proof fn lemma_row_line_facts(g: Seq<Seq<Seq<char>>>, ws: Seq<nat>, i: int)
    requires
        0 <= i < g.len(),
        ws.len() >= 1,
        g[i].len() == ws.len(),
        forall|c: int| 0 <= c < ws.len() ==> plain_cell(#[trigger] g[i][c]),
    ensures
        row_cells(row_line(g, seq![], ws, i)) == g[i],
        no_sep(row_line(g, seq![], ws, i), '\n'),
        table_source_line(row_line(g, seq![], ws, i)),
        strip_cr(row_line(g, seq![], ws, i)) == row_line(g, seq![], ws, i),
        forall|c: int| 0 <= c < ws.len() ==> !#[trigger] left_marker(row_line(g, seq![], ws, i), c),
        forall|c: int| 0 <= c < ws.len() ==> trim(#[trigger] raw_pieces(row_line(g, seq![], ws, i))[c]) == g[i][c],
        forall|c: int| 0 <= c < ws.len() && g[i][c] != seq!['^', '^'] ==> !#[trigger] up_marker(row_line(g, seq![], ws, i), i, c),
{
    reveal_strlit("|");
    let m = ws.len() as int;
    assert forall|c: int| 0 <= c < ws.len() implies #[trigger] cell_at(g, i, c) == g[i][c] && plain_cell(cell_at(g, i, c)) by {}
    lemma_row_reads_back(g, ws, i);
    assert(Seq::new(ws.len(), |c: int| cell_at(g, i, c)) =~= g[i]);
    let ps = Seq::new(ws.len(), |c: int| padded_piece(g, ws, i, c));
    lemma_row_pieces_join(g, ws, i, m);
    let j = join_text(ps, "|"@);
    assert(row_line(g, seq![], ws, i) =~= seq!['|'] + j + seq!['|']);
    assert forall|c: int| 0 <= c < ps.len() implies no_sep(#[trigger] ps[c], '\n') by {
        let x = cell_at(g, i, c);
        assert(plain_cell(x));
        let w = display_width_of(x);
        let pad = spaces(if ws[c] >= w { (ws[c] - w) as nat } else { 0 });
        assert forall|k: int| 0 <= k < ps[c].len() implies #[trigger] ps[c][k] != '\n' by {
            if 1 <= k < 1 + x.len() {
                assert(ps[c][k] == x[k - 1]);
            } else if 1 + x.len() <= k < 1 + x.len() + pad.len() {
                assert(ps[c][k] == pad[k - 1 - x.len()]);
            }
        }
    }
    assert(no_sep("|"@, '\n'));
    lemma_join_no_sep(ps, "|"@, '\n');
    lemma_framed_no_newline(j);
    lemma_framed_table_line(j);
    let line = row_line(g, seq![], ws, i);
    assert forall|c: int| 0 <= c < ws.len() implies trim(#[trigger] raw_pieces(line)[c]) == g[i][c] by {
        assert(row_cells(line)[c] == trim(raw_pieces(line)[c]));
    }
}

proof fn lemma_separator_line_facts(aligns: Seq<ColumnAlign>, ws: Seq<nat>)
    requires
        aligns.len() == ws.len() >= 2,
        forall|c: int| 0 <= c < ws.len() ==> #[trigger] ws[c] >= aligns[c].colons() + 3,
    ensures
        no_sep(separator_row(aligns, ws), '\n'),
        table_source_line(separator_row(aligns, ws)),
        strip_cr(separator_row(aligns, ws)) == separator_row(aligns, ws),
        separator_line(separator_row(aligns, ws)),
        row_cells(separator_row(aligns, ws)).map_values(|cell: Seq<char>| align_of_cell(cell)) == aligns,
{
    reveal_strlit("|");
    let m = aligns.len() as int;
    lemma_separator_reads_back(aligns, ws);
    let sep = separator_row(aligns, ws);
    let ps = Seq::new(m as nat, |c: int| seq![' '] + aligns[c].rendered(ws[c]) + seq![' ']);
    lemma_separator_pieces_join(aligns, ws, m);
    let j = join_text(ps, "|"@);
    assert(sep =~= seq!['|'] + j + seq!['|']);
    assert forall|c: int| 0 <= c < ps.len() implies no_sep(#[trigger] ps[c], '\n') by {
        let r = aligns[c].rendered(ws[c]);
        lemma_rendered_shape(aligns[c], ws[c]);
        assert forall|k: int| 0 <= k < ps[c].len() implies #[trigger] ps[c][k] != '\n' by {
            if 1 <= k < 1 + r.len() {
                assert(ps[c][k] == r[k - 1]);
            }
        }
    }
    assert(no_sep("|"@, '\n'));
    lemma_join_no_sep(ps, "|"@, '\n');
    lemma_framed_no_newline(j);
    lemma_framed_table_line(j);
}

/// The lines of the rendered text are the table's lines, each a table line.
proof fn lemma_rendered_lines(g: Seq<Seq<Seq<char>>>, aligns: Seq<ColumnAlign>)
    requires
        g.len() >= 1,
        aligns.len() >= 2,
        forall|i: int| 0 <= i < g.len() ==> (#[trigger] g[i]).len() == aligns.len(),
        forall|i: int, c: int| 0 <= i < g.len() && 0 <= c < aligns.len() ==> plain_cell(#[trigger] g[i][c]),
    ensures
        split_nl(rendered_table(g, aligns, seq![])) == table_lines(g, aligns, seq![]),
        forall|k: int| 0 <= k < table_lines(g, aligns, seq![]).len() ==> table_source_line(
            #[trigger] src_line(rendered_table(g, aligns, seq![]), k),
        ),
        table_lines(g, aligns, seq![]).len() == g.len() + 1,
{
    reveal_strlit("\n");
    let ws = widths_model(g, aligns, seq![]);
    let lines = table_lines(g, aligns, seq![]);
    let text = rendered_table(g, aligns, seq![]);
    assert forall|c: int| 0 <= c < ws.len() implies #[trigger] ws[c] >= aligns[c].colons() + 3 by {}
    lemma_separator_line_facts(aligns, ws);
    assert forall|i: int| 0 <= i < g.len() implies no_sep(#[trigger] row_line(g, seq![], ws, i), '\n') && table_source_line(
        row_line(g, seq![], ws, i),
    ) && strip_cr(row_line(g, seq![], ws, i)) == row_line(g, seq![], ws, i) by {
        assert forall|c: int| 0 <= c < ws.len() implies plain_cell(#[trigger] g[i][c]) by {}
        lemma_row_line_facts(g, ws, i);
    }
    let n = lines.len() as int;
    assert forall|k: int| 0 <= k < n implies no_sep(#[trigger] lines[k], '\n') && table_source_line(lines[k])
        && strip_cr(lines[k]) == lines[k] by {
        if k == 0 {
            assert(lines[0] == row_line(g, seq![], ws, 0));
        } else if k >= 2 {
            assert(lines[k] == row_line(g, seq![], ws, k - 1));
        }
    }
    assert("\n"@ =~= seq!['\n']);
    lemma_split_join_sep(lines, '\n');
    crate::markdown::lemma_split_nl_is_split_at_char(text);
    assert forall|k: int| 0 <= k < n implies table_source_line(#[trigger] src_line(text, k)) by {
        assert(src_line(text, k) == strip_cr(lines[k]));
    }
}

/// Rows of plain cells, each as long as the header, with at least two
/// columns, rendered without merged cells and read back, give the same
/// cells and alignments and no merged cell, wherever the cursor stands in
/// the table. (A body cell that reads `^^` is left out: that is how the
/// source writes a cell covered from above.)
#[verifier::spinoff_prover]
#[verifier::rlimit(50)]
pub proof fn lemma_table_reads_back(g: Seq<Seq<Seq<char>>>, aligns: Seq<ColumnAlign>, cursor: int, at: int)
    requires
        g.len() >= 1,
        aligns.len() >= 2,
        forall|i: int| 0 <= i < g.len() ==> (#[trigger] g[i]).len() == aligns.len(),
        forall|i: int, c: int| 0 <= i < g.len() && 0 <= c < aligns.len() ==> plain_cell(#[trigger] g[i][c]),
        forall|i: int, c: int| 1 <= i < g.len() && 0 <= c < aligns.len() ==> #[trigger] g[i][c] != seq!['^', '^'],
        first_line_ending_after(line_ranges_model(rendered_table(g, aligns, seq![])), cursor as nat, at),
    ensures
        table_model(rendered_table(g, aligns, seq![]), at, cursor) matches Some(m) && m.0 == g && m.1 == aligns
            && m.2 == Seq::<TableSpan>::empty(),
{
    let m = aligns.len() as int;
    let ws = widths_model(g, aligns, seq![]);
    let lines = table_lines(g, aligns, seq![]);
    let text = rendered_table(g, aligns, seq![]);
    lemma_rendered_lines(g, aligns);
    let n = lines.len() as int;
    assert forall|c: int| 0 <= c < ws.len() implies #[trigger] ws[c] >= aligns[c].colons() + 3 by {}
    lemma_separator_line_facts(aligns, ws);
    assert(0 <= at < n);
    assert(table_top(text, 0) == 0);
    lemma_table_top(text, at, 0);
    assert(table_bottom(text, n - 1) == n - 1);
    lemma_table_bottom(text, at, n - 1);
    assert(src_line(text, 1) == lines[1]);
    assert(lines[1] == separator_row(aligns, ws));
    assert(src_line(text, 0) == lines[0]);
    assert(lines[0] == row_line(g, seq![], ws, 0));
    assert forall|c: int| 0 <= c < ws.len() implies plain_cell(#[trigger] g[0][c]) by {}
    lemma_row_line_facts(g, ws, 0);
    assert(table_model_aligns(text, 0) =~= aligns);
    let src = table_model_src(text, 0, n - 1);
    assert(src =~= Seq::new(g.len(), |i: int| row_line(g, seq![], ws, i))) by {
        assert forall|i: int| 1 <= i < g.len() implies #[trigger] src_line(text, i + 1) == row_line(g, seq![], ws, i) by {
            assert(lines[i + 1] == row_line(g, seq![], ws, i));
        }
    }
    assert forall|i: int| 0 <= i < g.len() implies #[trigger] parsed_rows(src, m as nat)[i] =~= g[i] by {
        assert forall|c: int| 0 <= c < ws.len() implies plain_cell(#[trigger] g[i][c]) by {}
        lemma_row_line_facts(g, ws, i);
        assert forall|c: int| 0 <= c < m implies #[trigger] parsed_cell(src[i], i, c) == g[i][c] by {
            if i > 0 {
                assert(g[i][c] != seq!['^', '^']);
            }
            assert(!left_marker(src[i], c));
        }
    }
    assert(parsed_rows(src, m as nat) =~= g);
    assert forall|i: int, c: int| 0 <= i < src.len() && 0 <= c < m implies !#[trigger] left_marker(src[i], c) by {
        assert forall|c2: int| 0 <= c2 < ws.len() implies plain_cell(#[trigger] g[i][c2]) by {}
        lemma_row_line_facts(g, ws, i);
    }
    assert forall|i: int, c: int| 1 <= i < src.len() && 0 <= c < m implies !#[trigger] up_marker(src[i], i, c) by {
        assert forall|c2: int| 0 <= c2 < ws.len() implies plain_cell(#[trigger] g[i][c2]) by {}
        lemma_row_line_facts(g, ws, i);
        assert(g[i][c] != seq!['^', '^']);
    }
    lemma_no_spans(src, m);
}

proof fn lemma_no_spans(src: Seq<Seq<char>>, m: int)
    requires
        m >= 0,
        forall|i: int, c: int| 0 <= i < src.len() && 0 <= c < m ==> !#[trigger] left_marker(src[i], c),
        forall|i: int, c: int| 1 <= i < src.len() && 0 <= c < m ==> !#[trigger] up_marker(src[i], i, c),
    ensures
        parsed_spans(src, m as nat) == Seq::<TableSpan>::empty(),
{
    lemma_no_spans_upto(src, m, src.len() as int);
}

proof fn lemma_no_spans_upto(src: Seq<Seq<char>>, m: int, k: int)
    requires
        0 <= k <= src.len(),
        forall|i: int, c: int| 0 <= i < src.len() && 0 <= c < m ==> !#[trigger] left_marker(src[i], c),
        forall|i: int, c: int| 1 <= i < src.len() && 0 <= c < m ==> !#[trigger] up_marker(src[i], i, c),
    ensures
        spans_upto(src, m, k) == Seq::<TableSpan>::empty(),
    decreases k,
{
    if k > 0 {
        lemma_no_spans_upto(src, m, k - 1);
        lemma_no_row_spans(src, m, k - 1, m);
        assert(spans_upto(src, m, k) =~= Seq::<TableSpan>::empty());
    }
}

proof fn lemma_no_row_spans(src: Seq<Seq<char>>, m: int, i: int, k: int)
    requires
        0 <= i < src.len(),
        k <= m,
        forall|i: int, c: int| 0 <= i < src.len() && 0 <= c < m ==> !#[trigger] left_marker(src[i], c),
        forall|i: int, c: int| 1 <= i < src.len() && 0 <= c < m ==> !#[trigger] up_marker(src[i], i, c),
    ensures
        row_spans(src, m, i, k) == Seq::<TableSpan>::empty(),
    decreases k,
{
    if k > 0 {
        lemma_no_row_spans(src, m, i, k - 1);
        let c = k - 1;
        if c + 1 < m {
            assert(!left_marker(src[i], c + 1));
        }
        assert(run_right(src[i], c, m) == 0);
        if i + 1 < src.len() {
            assert(!up_marker(src[i + 1], i + 1, c));
        }
        assert(run_down(src, i, c) == 0);
        assert(span_here(src, m, i, c) is None);
        assert(row_spans(src, m, i, k) =~= Seq::<TableSpan>::empty());
    }
}


// ---------------------------------------------------------------------------
// The table buttons.

/// The name of an alignment in status messages.
pub open spec fn align_label(a: ColumnAlign) -> Seq<char> {
    match a {
        ColumnAlign::Auto => "自动对齐"@,
        ColumnAlign::Left => "左对齐"@,
        ColumnAlign::Center => "居中"@,
        ColumnAlign::Right => "右对齐"@,
    }
}

impl ColumnAlign {
    /// The name of the alignment in status messages.
    pub fn label(self) -> (r: &'static str)
        ensures
            r@ == align_label(self),
    {
        match self {
            ColumnAlign::Auto => "自动对齐",
            ColumnAlign::Left => "左对齐",
            ColumnAlign::Center => "居中",
            ColumnAlign::Right => "右对齐",
        }
    }
}

/// An edit of the insert ribbon on the table under the cursor.
#[derive(Debug, Clone, Copy, PartialEq, Eq, Structural)]
pub enum TableOp {
    InsertRowAbove,
    InsertRowBelow,
    DeleteRow,
    InsertColumnLeft,
    InsertColumnRight,
    DeleteColumn,
    MergeRight,
    MergeDown,
    SplitCell,
    Align(ColumnAlign),
}

/// The spans without the one anchored at `(r, c)`.
pub open spec fn without_anchor(spans: Seq<TableSpan>, r: int, c: int) -> Seq<TableSpan>
    decreases spans.len(),
{
    if spans.len() == 0 {
        spans
    } else {
        without_anchor(spans.drop_last(), r, c) + if spans.last().row == r && spans.last().column == c {
            seq![]
        } else {
            seq![spans.last()]
        }
    }
}

/// The status message of setting column `column` (0-based) to `align`.
pub open spec fn align_message(column: nat, align: ColumnAlign) -> Seq<char> {
    "第 "@ + crate::text::decimal_digits(column + 1) + " 列已设为"@ + align_label(align) + "。"@
}

fn without_anchor_exec(spans: &Vec<TableSpan>, r: usize, c: usize) -> (out: Vec<TableSpan>)
    ensures
        out@ == without_anchor(spans@, r as int, c as int),
{
    let mut out: Vec<TableSpan> = Vec::new();
    let mut k: usize = 0;
    while k < spans.len()
        invariant
            k <= spans.len(),
            out@ == without_anchor(spans@.take(k as int), r as int, c as int),
        decreases spans.len() - k,
    {
        assert(spans@.take(k + 1).drop_last() =~= spans@.take(k as int));
        let sp = spans[k];
        if !(sp.row == r && sp.column == c) {
            out.push(sp);
        }
        assert(out@ =~= without_anchor(spans@.take(k + 1), r as int, c as int));
        k += 1;
    }
    assert(spans@.take(spans.len() as int) =~= spans@);
    out
}

/// Apply a table button to the table under the cursor and move the cursor
/// cell as the button does. Rows are inserted under the header at the
/// highest, the header row cannot be deleted, a table keeps two columns at
/// least; a merge or a split that cannot be made is refused with its reason.
/// A refused edit leaves the table as it was. Gives the status message.
pub fn apply_table_op(table: &mut TableEdit, op: TableOp) -> (r: Result<String, &'static str>)
    requires
        table_wf(*old(table)),
        old(table).row < old(table).rows.len(),
        old(table).column < old(table).aligns.len(),
        old(table).rows.len() < usize::MAX - 1,
        old(table).aligns.len() < usize::MAX - 1,
    ensures
        ({
            let t0 = *old(table);
            let t1 = *final(table);
            let g0 = grid_model(t0.rows@);
            let g1 = grid_model(t1.rows@);
            let cell = match span_at(t0.spans@, t0.row as int, t0.column as int) {
                Some(sp) => sp,
                None => TableSpan { row: t0.row, column: t0.column, row_span: 1, column_span: 1 },
            };
            match op {
                TableOp::InsertRowAbove | TableOp::InsertRowBelow => {
                    let at: int = if op == TableOp::InsertRowAbove {
                        if t0.row >= 1 { t0.row as int } else { 1 }
                    } else {
                        t0.row + 1
                    };
                    &&& r is Ok && r->Ok_0@ == "已插入一行。"@
                    &&& g1 == g0.insert(at, empty_row(t0.aligns.len() as nat))
                    &&& t1.spans@ == t0.spans@.map_values(|sp: TableSpan| row_inserted(sp, at))
                    &&& t1.aligns@ == t0.aligns@ && t1.row == at && t1.column == t0.column && t1.span == t0.span
                },
                TableOp::DeleteRow => if t0.row == 0 {
                    r == Err::<String, &'static str>("表头删不得；要去掉整张表就把那几行选中删掉。") && t1 == t0
                } else {
                    &&& r is Ok && r->Ok_0@ == "已删除一行。"@
                    &&& g1 == grid_row_deleted(g0, t0.spans@, t0.row as int)
                    &&& t1.spans@ == retained(keep_some(t0.spans@.map_values(|sp: TableSpan| row_deleted(sp, t0.row as int))))
                    &&& t1.aligns@ == t0.aligns@ && t1.column == t0.column && t1.span == t0.span
                    &&& t1.row == if t0.row < t0.rows.len() - 1 { t0.row as int } else { t0.rows.len() - 2 }
                },
                TableOp::InsertColumnLeft | TableOp::InsertColumnRight => {
                    let at: int = if op == TableOp::InsertColumnLeft { t0.column as int } else { t0.column + 1 };
                    &&& r is Ok && r->Ok_0@ == "已插入一列。"@
                    &&& g1 == g0.map_values(|row: Seq<Seq<char>>| row.insert(at, Seq::<char>::empty()))
                    &&& t1.spans@ == t0.spans@.map_values(|sp: TableSpan| column_inserted(sp, at))
                    &&& t1.aligns@ == t0.aligns@.insert(at, ColumnAlign::Auto)
                    &&& t1.row == t0.row && t1.column == at && t1.span == t0.span
                },
                TableOp::DeleteColumn => if t0.aligns.len() <= 2 {
                    r == Err::<String, &'static str>("表格至少要两列，删不了。") && t1 == t0
                } else {
                    &&& r is Ok && r->Ok_0@ == "已删除一列。"@
                    &&& g1 == grid_column_deleted(g0, t0.spans@, t0.column as int)
                    &&& t1.spans@ == retained(keep_some(t0.spans@.map_values(|sp: TableSpan| column_deleted(sp, t0.column as int))))
                    &&& t1.aligns@ == t0.aligns@.remove(t0.column as int)
                    &&& t1.row == t0.row && t1.span == t0.span
                    &&& t1.column == if t0.column < t0.aligns.len() - 1 { t0.column as int } else { t0.aligns.len() - 2 }
                },
                TableOp::MergeRight | TableOp::MergeDown => {
                    let down = op == TableOp::MergeDown;
                    match merge_error(g0, t0.spans@, t0.aligns.len() as int, cell, down) {
                        Some(m) => r is Err && r->Err_0@ == m && t1 == t0,
                        None => {
                            &&& r is Ok && r->Ok_0@ == if down { "已向下合并一个单元格。"@ } else { "已向右合并一个单元格。"@ }
                            &&& t1.spans@ == retained(merged_spans(t0.spans@, cell, down))
                            &&& t1.rows@ == t0.rows@ && t1.aligns@ == t0.aligns@
                            &&& t1.row == t0.row && t1.column == t0.column && t1.span == t0.span
                        },
                    }
                },
                TableOp::SplitCell => {
                    let rest = without_anchor(t0.spans@, cell.row as int, cell.column as int);
                    if rest.len() == t0.spans.len() {
                        r == Err::<String, &'static str>("当前单元格没有合并。") && t1 == t0
                    } else {
                        &&& r is Ok && r->Ok_0@ == "已拆分单元格。"@
                        &&& t1.spans@ == rest && t1.rows@ == t0.rows@ && t1.aligns@ == t0.aligns@
                        &&& t1.row == cell.row && t1.column == cell.column && t1.span == t0.span
                    }
                },
                TableOp::Align(a) => {
                    &&& r is Ok && r->Ok_0@ == align_message(t0.column as nat, a)
                    &&& t1.aligns@ == t0.aligns@.update(t0.column as int, a)
                    &&& t1.rows@ == t0.rows@ && t1.spans@ == t0.spans@
                    &&& t1.row == t0.row && t1.column == t0.column && t1.span == t0.span
                },
            }
        }),
{
    let columns = table.columns();
    match op {
        TableOp::InsertRowAbove | TableOp::InsertRowBelow => {
            let at = if op == TableOp::InsertRowAbove {
                if table.row >= 1 {
                    table.row
                } else {
                    1
                }
            } else {
                table.row + 1
            };
            insert_table_row(table, at);
            table.row = at;
            Ok("已插入一行。".to_owned())
        },
        TableOp::DeleteRow => {
            if table.row == 0 {
                return Err("表头删不得；要去掉整张表就把那几行选中删掉。");
            }
            let row = table.row;
            let ghost g0 = grid_model(table.rows@);
            let ghost spans0 = table.spans@;
            delete_table_row(table, row);
            assert(grid_model(table.rows@).len() == table.rows.len());
            assert(grid_row_deleted(g0, spans0, row as int).len() == g0.len() - 1);
            let last = table.rows.len() - 1;
            table.row = if row < last {
                row
            } else {
                last
            };
            Ok("已删除一行。".to_owned())
        },
        TableOp::InsertColumnLeft | TableOp::InsertColumnRight => {
            let at = if op == TableOp::InsertColumnLeft {
                table.column
            } else {
                table.column + 1
            };
            insert_table_column(table, at);
            table.column = at;
            Ok("已插入一列。".to_owned())
        },
        TableOp::DeleteColumn => {
            if columns <= 2 {
                return Err("表格至少要两列，删不了。");
            }
            let column = table.column;
            delete_table_column(table, column);
            let last = table.aligns.len() - 1;
            table.column = if column < last {
                column
            } else {
                last
            };
            Ok("已删除一列。".to_owned())
        },
        TableOp::MergeRight | TableOp::MergeDown => {
            let cell = effective_span(table.spans.as_slice(), table.row, table.column);
            proof {
                lemma_span_at_covers(table.spans@, table.row as int, table.column as int);
                if let Some(sp) = span_at(table.spans@, table.row as int, table.column as int) {
                    let k = choose|k: int| 0 <= k < table.spans.len() && table.spans@[k] == sp;
                    assert(span_wf(table.spans@[k], table.rows.len() as int, table.aligns.len() as int));
                }
            }
            let down = op == TableOp::MergeDown;
            match extend_span(table, cell, down) {
                Ok(()) => Ok(if down {
                    "已向下合并一个单元格。".to_owned()
                } else {
                    "已向右合并一个单元格。".to_owned()
                }),
                Err(message) => Err(message),
            }
        },
        TableOp::SplitCell => {
            let cell = effective_span(table.spans.as_slice(), table.row, table.column);
            let rest = without_anchor_exec(&table.spans, cell.row, cell.column);
            if rest.len() == table.spans.len() {
                return Err("当前单元格没有合并。");
            }
            table.spans = rest;
            table.row = cell.row;
            table.column = cell.column;
            Ok("已拆分单元格。".to_owned())
        },
        TableOp::Align(align) => {
            let column = table.column;
            table.aligns.set(column, align);
            let mut message = String::new();
            push_str(&mut message, "第 ");
            crate::text::push_decimal(&mut message, (column + 1) as u64);
            push_str(&mut message, " 列已设为");
            push_str(&mut message, align.label());
            push_str(&mut message, "。");
            Ok(message)
        },
    }
}

/// Where the cursor goes after a table edit, as a byte offset from the
/// start of the rendered table: just inside the first cell of row `row`
/// (the separator row follows the header, so body rows sit one line lower).
pub open spec fn cursor_after_edit(rendered: Seq<char>, row: int) -> int {
    let ps = split_nl(rendered);
    let target: int = if row == 0 { 0 } else { row + 1 };
    let k = if target < ps.len() { target } else { ps.len() as int };
    (crate::diff::piece_start(ps, k) + 2) as int
}

/// The cursor offset of `cursor_after_edit`.
pub fn table_cursor(rendered: &str, row: usize) -> (r: usize)
    requires
        row < usize::MAX,
        byte_len(rendered@) + 3 <= usize::MAX,
    ensures
        r == cursor_after_edit(rendered@, row as int),
{
    crate::text::str_bytes_fit(rendered);
    let v = chars_of(rendered);
    let ghost s = v@;
    let ghost ps = split_nl(s);
    let starts = line_starts(&v);
    proof {
        crate::text::lemma_split_nl_nonempty(s);
    }
    let target = if row == 0 {
        0
    } else {
        row + 1
    };
    if target < starts.len() {
        proof {
            lemma_split_nl_piece(s, target as int);
            crate::hunks::lemma_piece_start_bytes(s, target as int);
            crate::text::lemma_byte_len_take_le(s, starts@[target as int] as int);
        }
        prefix_bytes(&v, starts[target]) + 2
    } else {
        let n = starts.len() - 1;
        proof {
            crate::text::lemma_split_nl_nonempty(s);
            crate::hunks::lemma_split_nl_total(s);
            lemma_split_nl_piece(s, n as int);
            crate::hunks::lemma_piece_start_bytes(s, n as int);
            let cs = char_start(ps, n as int);
            assert(s.take(cs) + ps[n as int] =~= s);
            crate::text::lemma_byte_len_concat(s.take(cs), ps[n as int]);
            assert(s.take(s.len() as int) =~= s);
        }
        prefix_bytes(&v, v.len()) + 3
    }
}


proof fn lemma_run_right_bound(line: Seq<char>, c: int, columns: int)
    requires
        0 <= c < columns,
    ensures
        c + run_right(line, c, columns) < columns,
    decreases columns - c,
{
    if c + 1 < columns && left_marker(line, c + 1) {
        lemma_run_right_bound(line, c + 1, columns);
    }
}

proof fn lemma_run_down_bound(src: Seq<Seq<char>>, i: int, c: int)
    requires
        0 <= i < src.len(),
    ensures
        i + run_down(src, i, c) < src.len(),
    decreases src.len() - i,
{
    if i + 1 < src.len() && up_marker(src[i + 1], i + 1, c) {
        lemma_run_down_bound(src, i + 1, c);
    }
}

proof fn lemma_row_spans_wf(src: Seq<Seq<char>>, columns: int, i: int, k: int)
    requires
        0 <= i < src.len(),
        0 <= k <= columns,
        src.len() <= usize::MAX,
        columns <= usize::MAX,
    ensures
        forall|t: int| 0 <= t < row_spans(src, columns, i, k).len() ==> span_wf(
            #[trigger] row_spans(src, columns, i, k)[t],
            src.len() as int,
            columns,
        ),
    decreases k,
{
    if k > 0 {
        lemma_row_spans_wf(src, columns, i, k - 1);
        let c = k - 1;
        lemma_run_right_bound(src[i], c, columns);
        lemma_run_down_bound(src, i, c);
        let prev = row_spans(src, columns, i, k - 1);
        let cur = row_spans(src, columns, i, k);
        assert forall|t: int| 0 <= t < cur.len() implies span_wf(#[trigger] cur[t], src.len() as int, columns) by {
            if t < prev.len() {
                assert(cur[t] == prev[t]);
            }
        }
    }
}

proof fn lemma_spans_upto_wf(src: Seq<Seq<char>>, columns: int, k: int)
    requires
        0 <= k <= src.len(),
        0 <= columns <= usize::MAX,
        src.len() <= usize::MAX,
    ensures
        forall|t: int| 0 <= t < spans_upto(src, columns, k).len() ==> span_wf(
            #[trigger] spans_upto(src, columns, k)[t],
            src.len() as int,
            columns,
        ),
    decreases k,
{
    if k > 0 {
        lemma_spans_upto_wf(src, columns, k - 1);
        lemma_row_spans_wf(src, columns, k - 1, columns);
        let prev = spans_upto(src, columns, k - 1);
        let row = row_spans(src, columns, k - 1, columns);
        let cur = spans_upto(src, columns, k);
        assert forall|t: int| 0 <= t < cur.len() implies span_wf(#[trigger] cur[t], src.len() as int, columns) by {
            if t < prev.len() {
                assert(cur[t] == prev[t]);
            } else {
                assert(cur[t] == row[t - prev.len()]);
            }
        }
    }
}

/// The table `table_at` finds is one its edits accept: every row has a cell
/// per column, every merged cell lies within the table, and the cursor cell
/// is in it.
pub proof fn lemma_found_table_wf(text: &str, cursor: usize, t: TableEdit)
    requires
        exists|at: int| first_line_ending_after(line_ranges_model(text@), cursor as nat, at)
            && table_model(text@, at, cursor as int) == Some((
                grid_model(t.rows@),
                t.aligns@,
                t.spans@,
                (t.span.start as nat, t.span.end as nat),
                t.row as int,
                t.column as int,
            )),
    ensures
        table_wf(t),
        t.row < t.rows.len(),
        t.column < t.aligns.len(),
{
    let at = choose|at: int| first_line_ending_after(line_ranges_model(text@), cursor as nat, at)
        && table_model(text@, at, cursor as int) == Some((
            grid_model(t.rows@),
            t.aligns@,
            t.spans@,
            (t.span.start as nat, t.span.end as nat),
            t.row as int,
            t.column as int,
        ));
    let s = text@;
    let first = table_top(s, at);
    let last = table_bottom(s, at);
    let aligns = table_model_aligns(s, first);
    let columns = aligns.len();
    let src = table_model_src(s, first, last);
    assert(grid_model(t.rows@) == parsed_rows(src, columns));
    assert(t.rows.len() == src.len());
    assert forall|i: int| 0 <= i < t.rows.len() implies (#[trigger] t.rows@[i]).len() == t.aligns.len() by {
        assert(grid_model(t.rows@)[i] == strings_model(t.rows@[i]@));
    }
    assert(columns == t.aligns.len());
    lemma_spans_upto_wf(src, columns as int, src.len() as int);
    assert(t.spans@ == parsed_spans(src, columns));
    lemma_top_le(s, at);
    lemma_bottom_ge(s, at);
}

proof fn lemma_top_le(s: Seq<char>, k: int)
    ensures
        table_top(s, k) <= k,
        k >= 0 ==> table_top(s, k) >= 0,
    decreases k,
{
    if k > 0 && table_source_line(src_line(s, k - 1)) {
        lemma_top_le(s, k - 1);
    }
}

proof fn lemma_bottom_ge(s: Seq<char>, k: int)
    ensures
        table_bottom(s, k) >= k,
    decreases split_nl(s).len() - k,
{
    if k + 1 < split_nl(s).len() && table_source_line(src_line(s, k + 1)) {
        lemma_bottom_ge(s, k + 1);
    }
}

proof fn lemma_anchor_sorted_fixed(s: Seq<TableSpan>)
    requires
        forall|i: int, j: int| 0 <= i < j < s.len() ==> anchor_le(s[i], s[j]),
    ensures
        anchor_sorted(s) == s,
    decreases s.len(),
{
    if s.len() > 0 {
        let d = s.drop_last();
        assert forall|i: int, j: int| 0 <= i < j < d.len() implies anchor_le(d[i], d[j]) by {
            assert(d[i] == s[i] && d[j] == s[j]);
        }
        lemma_anchor_sorted_fixed(d);
        assert forall|t: int| 0 <= t < d.len() implies anchor_le(#[trigger] d[t], s.last()) by {
            assert(d[t] == s[t]);
            assert(s.last() == s[s.len() - 1]);
        }
        lemma_insert_pos_skip(d, s.last(), d.len() as int);
        assert(d.skip(d.len() as int) =~= Seq::<TableSpan>::empty());
        assert(d.insert(d.len() as int, s.last()) =~= s);
    }
}

proof fn lemma_real_spans_fixed(s: Seq<TableSpan>)
    requires
        forall|k: int| 0 <= k < s.len() ==> (#[trigger] s[k]).row_span > 1 || s[k].column_span > 1,
    ensures
        real_spans(s) == s,
    decreases s.len(),
{
    if s.len() > 0 {
        let d = s.drop_last();
        assert forall|k: int| 0 <= k < d.len() implies (#[trigger] d[k]).row_span > 1 || d[k].column_span > 1 by {
            assert(d[k] == s[k]);
        }
        lemma_real_spans_fixed(d);
        assert(s.last() == s[s.len() - 1]);
        assert(real_spans(s) =~= s);
    } else {
        assert(real_spans(s) =~= s);
    }
}

proof fn lemma_keep_some_all(s: Seq<TableSpan>, at: int)
    requires
        forall|k: int| 0 <= k < s.len() ==> (#[trigger] s[k]).row + s[k].row_span < usize::MAX,
    ensures
        keep_some(s.map_values(|sp: TableSpan| row_inserted(sp, at)).map_values(|sp: TableSpan| row_deleted(sp, at))) == s,
    decreases s.len(),
{
    let m = s.map_values(|sp: TableSpan| row_inserted(sp, at)).map_values(|sp: TableSpan| row_deleted(sp, at));
    if s.len() > 0 {
        let d = s.drop_last();
        assert forall|k: int| 0 <= k < d.len() implies (#[trigger] d[k]).row + d[k].row_span < usize::MAX by {
            assert(d[k] == s[k]);
        }
        lemma_keep_some_all(d, at);
        assert(m.drop_last() =~= d.map_values(|sp: TableSpan| row_inserted(sp, at)).map_values(|sp: TableSpan| row_deleted(sp, at)));
        let x = s.last();
        assert(x == s[s.len() - 1]);
        assert(m.last() == row_deleted(row_inserted(x, at), at));
        assert(row_deleted(row_inserted(x, at), at) == Some(x));
        assert(keep_some(m) =~= s);
    } else {
        assert(keep_some(m) =~= s);
    }
}

/// Inserting a row and deleting it again gives the table back: its cells,
/// and its merged cells (each merging more than one cell, in anchor
/// order), a merged cell that grew over the new row shrinking back.
pub proof fn lemma_insert_then_delete_row(g: Seq<Seq<Seq<char>>>, spans: Seq<TableSpan>, columns: nat, at: int)
    requires
        0 <= at <= g.len(),
        g.len() < usize::MAX,
        forall|k: int| 0 <= k < spans.len() ==> span_wf(#[trigger] spans[k], g.len() as int, columns as int),
        forall|k: int| 0 <= k < spans.len() ==> (#[trigger] spans[k]).row_span > 1 || spans[k].column_span > 1,
        forall|i: int, j: int| 0 <= i < j < spans.len() ==> anchor_le(spans[i], spans[j]),
    ensures
        ({
            let g2 = g.insert(at, empty_row(columns));
            let s2 = spans.map_values(|sp: TableSpan| row_inserted(sp, at));
            &&& grid_row_deleted(g2, s2, at) == g
            &&& retained(keep_some(s2.map_values(|sp: TableSpan| row_deleted(sp, at)))) == spans
        }),
{
    let g2 = g.insert(at, empty_row(columns));
    let s2 = spans.map_values(|sp: TableSpan| row_inserted(sp, at));
    assert(g2.remove(at) =~= g);
    assert forall|c: int| !tall_anchor(s2, at, c) by {
        if tall_anchor(s2, at, c) {
            let k = choose|k: int| 0 <= k < s2.len() && s2[k].row == at && s2[k].column == c && s2[k].row_span > 1;
            assert(s2[k] == row_inserted(spans[k], at));
        }
    }
    if at < g.len() {
        assert(grid_row_deleted(g2, s2, at) =~= g) by {
            let r = Seq::new(g[at].len(), |c: int| if tall_anchor(s2, at, c) && c < g2[at].len() { g2[at][c] } else { g[at][c] });
            assert(r =~= g[at]);
            assert(g.update(at, r) =~= g);
        }
    }
    assert forall|k: int| 0 <= k < spans.len() implies (#[trigger] spans[k]).row + spans[k].row_span < usize::MAX by {
        assert(span_wf(spans[k], g.len() as int, columns as int));
    }
    lemma_keep_some_all(spans, at);
    lemma_real_spans_fixed(spans);
    lemma_anchor_sorted_fixed(spans);
}

/// Where row or column `c` lands after one is inserted at `at`.
pub open spec fn index_shifted(c: int, at: int) -> int {
    if c < at { c } else { c + 1 }
}

/// Inserting a column at `at` keeps every merged cell over the same cells of
/// the old table: it covers a shifted old cell exactly when it covered the
/// old cell, it covers the new column only when that column falls strictly
/// inside it, and its top-left cell holds the text it held before.
pub proof fn lemma_insert_column_keeps_merges(g: Seq<Seq<Seq<char>>>, spans: Seq<TableSpan>, columns: nat, at: int)
    requires
        0 <= at <= columns < usize::MAX,
        forall|i: int| 0 <= i < g.len() ==> (#[trigger] g[i]).len() == columns,
        forall|k: int| 0 <= k < spans.len() ==> span_wf(#[trigger] spans[k], g.len() as int, columns as int),
    ensures
        ({
            let g2 = g.map_values(|r: Seq<Seq<char>>| r.insert(at, Seq::<char>::empty()));
            let s2 = spans.map_values(|sp: TableSpan| column_inserted(sp, at));
            forall|k: int| 0 <= k < spans.len() ==> {
                &&& g2[s2[k].row as int][s2[k].column as int] == g[spans[k].row as int][spans[k].column as int]
                &&& forall|r: int, c: int| 0 <= c < columns ==>
                    ((#[trigger] s2[k].covers(r, index_shifted(c, at))) <==> spans[k].covers(r, c))
                &&& forall|r: int| (#[trigger] s2[k].covers(r, at)) <==>
                    (spans[k].row <= r < spans[k].row + spans[k].row_span
                        && spans[k].column < at < spans[k].column + spans[k].column_span)
            }
        }),
{
    let g2 = g.map_values(|r: Seq<Seq<char>>| r.insert(at, Seq::<char>::empty()));
    let s2 = spans.map_values(|sp: TableSpan| column_inserted(sp, at));
    assert forall|k: int| 0 <= k < spans.len() implies {
        &&& g2[s2[k].row as int][s2[k].column as int] == g[spans[k].row as int][spans[k].column as int]
        &&& forall|r: int, c: int| 0 <= c < columns ==>
            ((#[trigger] s2[k].covers(r, index_shifted(c, at))) <==> spans[k].covers(r, c))
        &&& forall|r: int| (#[trigger] s2[k].covers(r, at)) <==>
            (spans[k].row <= r < spans[k].row + spans[k].row_span
                && spans[k].column < at < spans[k].column + spans[k].column_span)
    } by {
        let sp = spans[k];
        assert(span_wf(sp, g.len() as int, columns as int));
        assert(s2[k] == column_inserted(sp, at));
        let row = g[sp.row as int];
        assert(row.len() == columns);
        assert(g2[sp.row as int] == row.insert(at, Seq::<char>::empty()));
    }
}

/// Inserting a row at `at` keeps every merged cell over the same cells of
/// the old table: it covers a shifted old cell exactly when it covered the
/// old cell, it covers the new row only when that row falls strictly inside
/// it, and its top-left cell holds the text it held before.
pub proof fn lemma_insert_row_keeps_merges(g: Seq<Seq<Seq<char>>>, spans: Seq<TableSpan>, columns: nat, at: int)
    requires
        0 <= at <= g.len() < usize::MAX,
        forall|i: int| 0 <= i < g.len() ==> (#[trigger] g[i]).len() == columns,
        forall|k: int| 0 <= k < spans.len() ==> span_wf(#[trigger] spans[k], g.len() as int, columns as int),
    ensures
        ({
            let g2 = g.insert(at, empty_row(columns));
            let s2 = spans.map_values(|sp: TableSpan| row_inserted(sp, at));
            forall|k: int| 0 <= k < spans.len() ==> {
                &&& g2[s2[k].row as int][s2[k].column as int] == g[spans[k].row as int][spans[k].column as int]
                &&& forall|r: int, c: int| 0 <= r < g.len() ==>
                    ((#[trigger] s2[k].covers(index_shifted(r, at), c)) <==> spans[k].covers(r, c))
                &&& forall|c: int| (#[trigger] s2[k].covers(at, c)) <==>
                    (spans[k].column <= c < spans[k].column + spans[k].column_span
                        && spans[k].row < at < spans[k].row + spans[k].row_span)
            }
        }),
{
    let g2 = g.insert(at, empty_row(columns));
    let s2 = spans.map_values(|sp: TableSpan| row_inserted(sp, at));
    assert forall|k: int| 0 <= k < spans.len() implies {
        &&& g2[s2[k].row as int][s2[k].column as int] == g[spans[k].row as int][spans[k].column as int]
        &&& forall|r: int, c: int| 0 <= r < g.len() ==>
            ((#[trigger] s2[k].covers(index_shifted(r, at), c)) <==> spans[k].covers(r, c))
        &&& forall|c: int| (#[trigger] s2[k].covers(at, c)) <==>
            (spans[k].column <= c < spans[k].column + spans[k].column_span
                && spans[k].row < at < spans[k].row + spans[k].row_span)
    } by {
        let sp = spans[k];
        assert(span_wf(sp, g.len() as int, columns as int));
        assert(s2[k] == row_inserted(sp, at));
        if at <= sp.row {
            assert(g2[sp.row + 1] == g[sp.row as int]);
        } else {
            assert(g2[sp.row as int] == g[sp.row as int]);
        }
    }
}

/// Where row or column `c` lands after the one at `at` is deleted.
pub open spec fn index_unshifted(c: int, at: int) -> int {
    if c < at { c } else { c - 1 }
}

/// No cell lies in two merged cells.
pub open spec fn spans_disjoint(spans: Seq<TableSpan>) -> bool {
    forall|k1: int, k2: int, r: int, c: int|
        #![trigger spans[k1].covers(r, c), spans[k2].covers(r, c)]
        0 <= k1 < spans.len() && 0 <= k2 < spans.len() && k1 != k2 ==> !(spans[k1].covers(r, c) && spans[k2].covers(r, c))
}

/// Deleting column `at` drops a merged cell only when that column was all it
/// covered; any other keeps the cells it covered outside that column, shifted
/// past it, and no others, and keeps the text of its top-left cell (moved to
/// the next column when the cell was anchored in the deleted one).
pub proof fn lemma_delete_column_keeps_merges(g: Seq<Seq<Seq<char>>>, spans: Seq<TableSpan>, columns: nat, at: int)
    requires
        0 <= at < columns,
        forall|i: int| 0 <= i < g.len() ==> (#[trigger] g[i]).len() == columns,
        forall|k: int| 0 <= k < spans.len() ==> span_wf(#[trigger] spans[k], g.len() as int, columns as int),
        spans_disjoint(spans),
    ensures
        ({
            let g2 = grid_column_deleted(g, spans, at);
            forall|k: int| 0 <= k < spans.len() ==> {
                &&& (column_deleted(spans[k], at) is None <==> (spans[k].column == at && spans[k].column_span == 1))
                &&& column_deleted(spans[k], at) matches Some(sp2) ==> {
                    &&& g2[sp2.row as int][sp2.column as int] == g[spans[k].row as int][spans[k].column as int]
                    &&& forall|r: int, c: int| 0 <= c < columns && c != at ==>
                        ((#[trigger] sp2.covers(r, index_unshifted(c, at))) <==> spans[k].covers(r, c))
                }
            }
        }),
{
    let g2 = grid_column_deleted(g, spans, at);
    assert forall|k: int| 0 <= k < spans.len() implies {
        &&& (column_deleted(spans[k], at) is None <==> (spans[k].column == at && spans[k].column_span == 1))
        &&& column_deleted(spans[k], at) matches Some(sp2) ==> {
            &&& g2[sp2.row as int][sp2.column as int] == g[spans[k].row as int][spans[k].column as int]
            &&& forall|r: int, c: int| 0 <= c < columns && c != at ==>
                ((#[trigger] sp2.covers(r, index_unshifted(c, at))) <==> spans[k].covers(r, c))
        }
    } by {
        let sp = spans[k];
        assert(span_wf(sp, g.len() as int, columns as int));
        let i = sp.row as int;
        let row = g[i];
        assert(row.len() == columns);
        let r2 = row.remove(at);
        assert(g2[i] == (if wide_anchor(spans, i, at) && at < r2.len() { r2.update(at, row[at]) } else { r2 }));
        if at < sp.column {
            if sp.column - 1 == at && wide_anchor(spans, i, at) {
                let k2 = choose|k2: int|
                    0 <= k2 < spans.len() && spans[k2].row == i && spans[k2].column == at && spans[k2].column_span > 1;
                assert(spans[k2].covers(i, sp.column as int) && spans[k].covers(i, sp.column as int));
            }
            assert(r2[sp.column - 1] == row[sp.column as int]);
        } else if at >= sp.column + sp.column_span {
            assert(r2[sp.column as int] == row[sp.column as int]);
        } else if sp.column_span > 1 {
            if at == sp.column {
                assert(spans[k].row == i && spans[k].column == at && spans[k].column_span > 1);
                assert(wide_anchor(spans, i, at));
            } else {
                assert(r2[sp.column as int] == row[sp.column as int]);
            }
        }
    }
}

/// Deleting row `at` drops a merged cell only when that row was all it
/// covered; any other keeps the cells it covered outside that row, shifted
/// past it, and no others, and keeps the text of its top-left cell (moved to
/// the next row when the cell was anchored on the deleted one).
pub proof fn lemma_delete_row_keeps_merges(g: Seq<Seq<Seq<char>>>, spans: Seq<TableSpan>, columns: nat, at: int)
    requires
        0 <= at < g.len(),
        forall|i: int| 0 <= i < g.len() ==> (#[trigger] g[i]).len() == columns,
        forall|k: int| 0 <= k < spans.len() ==> span_wf(#[trigger] spans[k], g.len() as int, columns as int),
        spans_disjoint(spans),
    ensures
        ({
            let g2 = grid_row_deleted(g, spans, at);
            forall|k: int| 0 <= k < spans.len() ==> {
                &&& (row_deleted(spans[k], at) is None <==> (spans[k].row == at && spans[k].row_span == 1))
                &&& row_deleted(spans[k], at) matches Some(sp2) ==> {
                    &&& g2[sp2.row as int][sp2.column as int] == g[spans[k].row as int][spans[k].column as int]
                    &&& forall|r: int, c: int| 0 <= r < g.len() && r != at ==>
                        ((#[trigger] sp2.covers(index_unshifted(r, at), c)) <==> spans[k].covers(r, c))
                }
            }
        }),
{
    let g2 = grid_row_deleted(g, spans, at);
    let gr = g.remove(at);
    assert forall|k: int| 0 <= k < spans.len() implies {
        &&& (row_deleted(spans[k], at) is None <==> (spans[k].row == at && spans[k].row_span == 1))
        &&& row_deleted(spans[k], at) matches Some(sp2) ==> {
            &&& g2[sp2.row as int][sp2.column as int] == g[spans[k].row as int][spans[k].column as int]
            &&& forall|r: int, c: int| 0 <= r < g.len() && r != at ==>
                ((#[trigger] sp2.covers(index_unshifted(r, at), c)) <==> spans[k].covers(r, c))
        }
    } by {
        let sp = spans[k];
        assert(span_wf(sp, g.len() as int, columns as int));
        let c = sp.column as int;
        if at < sp.row {
            if sp.row - 1 == at && tall_anchor(spans, at, c) {
                let k2 = choose|k2: int|
                    0 <= k2 < spans.len() && spans[k2].row == at && spans[k2].column == c && spans[k2].row_span > 1;
                assert(spans[k2].covers(sp.row as int, c) && spans[k].covers(sp.row as int, c));
            }
            assert(gr[sp.row - 1] == g[sp.row as int]);
        } else if at >= sp.row + sp.row_span {
            assert(gr[sp.row as int] == g[sp.row as int]);
        } else if sp.row_span > 1 {
            if at == sp.row {
                assert(spans[k].row == at && spans[k].column == c && spans[k].row_span > 1);
                assert(tall_anchor(spans, at, c));
                assert(g[at].len() == columns);
            } else {
                assert(gr[sp.row as int] == g[sp.row as int]);
            }
        }
    }
}

/// A merge grows the merged cell at the anchor of `span` by the row under it
/// (`down`) or the column right of it, and leaves every other merged cell as
/// it was; when no merged cell was anchored there, the grown cell is added.
pub proof fn lemma_merge_grows_by_one(spans: Seq<TableSpan>, span: TableSpan, down: bool)
    requires
        span.row + span.row_span < usize::MAX,
        span.column + span.column_span < usize::MAX,
        anchor_index(spans, span.row as int, span.column as int) >= 0 ==> spans[anchor_index(spans, span.row as int, span.column as int)] == span,
    ensures
        ({
            let k = anchor_index(spans, span.row as int, span.column as int);
            let m = merged_spans(spans, span, down);
            let i = if k >= 0 { k } else { spans.len() as int };
            &&& m.len() == (if k >= 0 { spans.len() } else { spans.len() + 1 })
            &&& m[i].row == span.row && m[i].column == span.column
            &&& forall|r: int, c: int| #[trigger] m[i].covers(r, c) <==> if down {
                span.row <= r <= span.row + span.row_span && span.column <= c < span.column + span.column_span
            } else {
                span.row <= r < span.row + span.row_span && span.column <= c <= span.column + span.column_span
            }
            &&& forall|j: int| 0 <= j < spans.len() && j != i ==> #[trigger] m[j] == spans[j]
        }),
{
    lemma_anchor_index_bounds(spans, span.row as int, span.column as int);
}

proof fn lemma_anchor_index_bounds(spans: Seq<TableSpan>, r: int, c: int)
    ensures
        anchor_index(spans, r, c) < spans.len(),
        anchor_index(spans, r, c) >= -1,
    decreases spans.len(),
{
    if spans.len() > 0 {
        lemma_anchor_index_bounds(spans.drop_first(), r, c);
    }
}

/// Splitting a cell drops exactly the merged cells anchored there: a merged
/// cell remains exactly when it was there and is anchored elsewhere.
pub proof fn lemma_split_drops_anchor(spans: Seq<TableSpan>, r: int, c: int, x: TableSpan)
    ensures
        without_anchor(spans, r, c).contains(x) <==> (spans.contains(x) && !(x.row == r && x.column == c)),
    decreases spans.len(),
{
    if spans.len() > 0 {
        let d = spans.drop_last();
        lemma_split_drops_anchor(d, r, c, x);
        let w = without_anchor(d, r, c);
        let l = spans.last();
        let tail = if l.row == r && l.column == c { Seq::<TableSpan>::empty() } else { seq![l] };
        let out = w + tail;
        if out.contains(x) {
            let i = choose|i: int| 0 <= i < out.len() && out[i] == x;
            if i < w.len() {
                assert(w[i] == x);
                let j = choose|j: int| 0 <= j < d.len() && d[j] == x;
                assert(spans[j] == d[j]);
            } else {
                assert(spans[spans.len() - 1] == x);
            }
        }
        if spans.contains(x) && !(x.row == r && x.column == c) {
            let j = choose|j: int| 0 <= j < spans.len() && spans[j] == x;
            if j < d.len() {
                assert(d[j] == x);
                let i = choose|i: int| 0 <= i < w.len() && w[i] == x;
                assert(out[i] == x);
            } else {
                assert(out[w.len() as int] == x);
            }
        }
    }
}

} // verus!
