//! Editing helpers on the Markdown source of a draft: what a line is
//! (heading, table row, separator row), line positions, and the line-level
//! and inline edits of the format ribbon.

use crate::diff::{lemma_piece_start_prefix, piece_start};
use crate::hunks::{
    char_start, lemma_char_start_le, lemma_piece_start_bytes, lemma_split_nl_piece, line_range, line_starts,
};
use crate::text::{
    byte_len, chars_of, copy_range, is_blank, is_whitespace, is_ws, lemma_byte_len_concat,
    lemma_byte_len_ge_len, lemma_byte_len_take_le, lemma_split_nl_nonempty, lemma_trim_empty_iff_blank,
    prefix_bytes, push_chars, split_at_char, split_nl, split_trimmed, str_bytes_fit, string_of,
    string_of_range, strings_model, strip_cr, join_strings, join_text, trim, trim_bounds, trim_start, char_width,
};
use std::ops::Range;
use vstd::prelude::*;

verus! {

/// Whitespace as `u8::is_ascii_whitespace` sees it.
pub open spec fn is_ascii_ws(c: char) -> bool {
    c == ' ' || c == '\t' || c == '\n' || c == '\x0C' || c == '\r'
}

/// Number of leading `c` of `s`.
pub open spec fn run_of(s: Seq<char>, c: char) -> nat
    decreases s.len(),
{
    if s.len() > 0 && s[0] == c {
        1 + run_of(s.drop_first(), c)
    } else {
        0
    }
}

proof fn lemma_run_of(s: Seq<char>, c: char)
    ensures
        run_of(s, c) <= s.len(),
        forall|k: int| 0 <= k < run_of(s, c) ==> #[trigger] s[k] == c,
        run_of(s, c) < s.len() ==> s[run_of(s, c) as int] != c,
    decreases s.len(),
{
    if s.len() > 0 && s[0] == c {
        lemma_run_of(s.drop_first(), c);
        assert forall|k: int| 0 <= k < run_of(s, c) implies #[trigger] s[k] == c by {
            if k > 0 {
                assert(s[k] == s.drop_first()[k - 1]);
            }
        }
    }
}

/// The level of a Markdown heading line: one to six `#` after optional
/// indentation, then whitespace.
pub open spec fn heading_level(line: Seq<char>) -> Option<nat> {
    let t = trim_start(line);
    let h = run_of(t, '#');
    if 1 <= h <= 6 && h < t.len() && is_ascii_ws(t[h as int]) {
        Some(h)
    } else {
        None
    }
}

/// Number of leading `c` in `v[lo..hi]`.
fn count_run(v: &Vec<char>, lo: usize, hi: usize, c: char) -> (r: usize)
    requires
        lo <= hi <= v.len(),
    ensures
        r == run_of(v@.subrange(lo as int, hi as int), c),
        lo + r <= hi,
{
    let mut k = lo;
    while k < hi && v[k] == c
        invariant
            lo <= k <= hi <= v.len(),
            run_of(v@.subrange(lo as int, hi as int), c) == (k - lo) + run_of(v@.subrange(k as int, hi as int), c),
        decreases hi - k,
    {
        assert(v@.subrange(k as int, hi as int).drop_first() =~= v@.subrange(k + 1, hi as int));
        k += 1;
    }
    k - lo
}

/// The heading level of a line, if it is a heading.
pub fn markdown_heading_level(line: &str) -> (r: Option<u8>)
    ensures
        match r {
            Some(n) => heading_level(line@) == Some(n as nat),
            None => heading_level(line@) is None,
        },
{
    let v = chars_of(line);
    let n = v.len();
    let (l, _) = trim_bounds(&v, 0, n);
    assert(v@.subrange(0, n as int) =~= v@);
    let hashes = count_run(&v, l, n, '#');
    let at = l + hashes;
    if 1 <= hashes && hashes <= 6 && at < n {
        let c = v[at];
        proof {
            assert(v@.subrange(l as int, n as int)[hashes as int] == c);
        }
        if c == ' ' || c == '\t' || c == '\n' || c == '\x0C' || c == '\r' {
            return Some(hashes as u8);
        }
    }
    None
}

/// Number of `c` in `s`.
pub open spec fn count_of(s: Seq<char>, c: char) -> nat
    decreases s.len(),
{
    if s.len() == 0 {
        0
    } else {
        count_of(s.drop_last(), c) + if s.last() == c {
            1nat
        } else {
            0nat
        }
    }
}

/// Whether a source line belongs to a table: it holds two pipes or more.
pub open spec fn table_source_line(line: Seq<char>) -> bool {
    count_of(trim(line), '|') >= 2
}

fn count_in(v: &Vec<char>, lo: usize, hi: usize, c: char) -> (r: usize)
    requires
        lo <= hi <= v.len(),
    ensures
        r == count_of(v@.subrange(lo as int, hi as int), c),
{
    let mut k = lo;
    let mut r: usize = 0;
    assert(v@.subrange(lo as int, lo as int) =~= Seq::<char>::empty());
    while k < hi
        invariant
            lo <= k <= hi <= v.len(),
            r == count_of(v@.subrange(lo as int, k as int), c),
            r <= k - lo,
        decreases hi - k,
    {
        assert(v@.subrange(lo as int, k + 1).drop_last() =~= v@.subrange(lo as int, k as int));
        if v[k] == c {
            r += 1;
        }
        k += 1;
    }
    r
}

/// Whether a source line belongs to a table.
pub fn is_table_source_line(line: &str) -> (r: bool)
    ensures
        r == table_source_line(line@),
{
    let v = chars_of(line);
    let n = v.len();
    let (a, b) = trim_bounds(&v, 0, n);
    assert(v@.subrange(0, n as int) =~= v@);
    count_in(&v, a, b, '|') >= 2
}

/// The trimmed row with one leading and one trailing pipe taken off.
pub open spec fn row_body(line: Seq<char>) -> Seq<char> {
    let t = trim(line);
    let a = if t.len() > 0 && t[0] == '|' {
        t.drop_first()
    } else {
        t
    };
    if a.len() > 0 && a.last() == '|' {
        a.drop_last()
    } else {
        a
    }
}

/// The cells of a table row, each trimmed.
pub open spec fn row_cells(line: Seq<char>) -> Seq<Seq<char>> {
    split_at_char(row_body(line), '|').map_values(|p: Seq<char>| trim(p))
}

/// Split a table row: the outer pipes taken off, cut at the pipes, every cell
/// trimmed.
pub fn split_row(line: &str) -> (r: Vec<String>)
    ensures
        strings_model(r@) == row_cells(line@),
{
    let v = chars_of(line);
    let n = v.len();
    let (mut a, mut b) = trim_bounds(&v, 0, n);
    assert(v@.subrange(0, n as int) =~= v@);
    let ghost t = v@.subrange(a as int, b as int);
    if a < b && v[a] == '|' {
        a += 1;
        assert(v@.subrange(a as int, b as int) =~= t.drop_first());
    }
    let ghost t1 = v@.subrange(a as int, b as int);
    if a < b && v[b - 1] == '|' {
        b -= 1;
        assert(v@.subrange(a as int, b as int) =~= t1.drop_last());
    }
    split_trimmed(&v, a, b, '|')
}

/// `s` without its leading and trailing colons.
pub open spec fn strip_colons(s: Seq<char>) -> Seq<char>
    decreases s.len(),
{
    if s.len() > 0 && s[0] == ':' {
        strip_colons(s.drop_first())
    } else if s.len() > 0 && s.last() == ':' {
        strip_colons(s.drop_last())
    } else {
        s
    }
}

/// A cell of a separator row: at least three dashes between optional colons.
pub open spec fn separator_cell(cell: Seq<char>) -> bool {
    let value = strip_colons(trim(cell));
    value.len() >= 3 && forall|k: int| 0 <= k < value.len() ==> #[trigger] value[k] == '-'
}

/// The separator row of a table: two cells or more, each a separator cell.
pub open spec fn separator_line(line: Seq<char>) -> bool {
    let cells = row_cells(line);
    cells.len() >= 2 && forall|k: int| 0 <= k < cells.len() ==> #[trigger] separator_cell(cells[k])
}

fn is_separator_cell(cell: &String) -> (r: bool)
    ensures
        r == separator_cell(cell@),
{
    let v = chars_of(cell.as_str());
    let n = v.len();
    let (mut a, mut b) = trim_bounds(&v, 0, n);
    assert(v@.subrange(0, n as int) =~= v@);
    while a < b && (v[a] == ':' || v[b - 1] == ':')
        invariant
            0 <= a <= b <= n == v.len(),
            strip_colons(v@.subrange(a as int, b as int)) == strip_colons(trim(cell@)),
        decreases b - a,
    {
        let ghost s = v@.subrange(a as int, b as int);
        if v[a] == ':' {
            assert(s.drop_first() =~= v@.subrange(a + 1, b as int));
            a += 1;
        } else {
            assert(s.drop_last() =~= v@.subrange(a as int, b - 1));
            b -= 1;
        }
    }
    let ghost s = v@.subrange(a as int, b as int);
    assert(strip_colons(s) == s);
    if b - a < 3 {
        return false;
    }
    let mut k = a;
    while k < b
        invariant
            a <= k <= b <= v.len(),
            s == v@.subrange(a as int, b as int),
            s == strip_colons(trim(cell@)),
            forall|t: int| a <= t < k ==> v@[t] == '-',
        decreases b - k,
    {
        if v[k] != '-' {
            assert(s[k - a] != '-');
            return false;
        }
        k += 1;
    }
    assert forall|t: int| 0 <= t < s.len() implies #[trigger] s[t] == '-' by {
        assert(s[t] == v@[a + t]);
    }
    true
}

/// Whether a line is the separator row of a table (`| --- | :---: |`).
pub fn is_table_separator_line(line: &str) -> (r: bool)
    ensures
        r == separator_line(line@),
{
    let cells = split_row(line);
    if cells.len() < 2 {
        return false;
    }
    let mut k: usize = 0;
    while k < cells.len()
        invariant
            k <= cells.len(),
            strings_model(cells@) == row_cells(line@),
            forall|t: int| 0 <= t < k ==> #[trigger] separator_cell(row_cells(line@)[t]),
        decreases cells.len() - k,
    {
        assert(strings_model(cells@)[k as int] == cells@[k as int]@);
        if !is_separator_cell(&cells[k]) {
            return false;
        }
        k += 1;
    }
    true
}

/// Number of columns of a table row, at least one.
pub fn table_column_count(line: &str) -> (r: usize)
    ensures
        r == if row_cells(line@).len() >= 1 {
            row_cells(line@).len()
        } else {
            1
        },
{
    let cells = split_row(line);
    if cells.len() >= 1 {
        cells.len()
    } else {
        1
    }
}

/// Width of a text in a monospaced display: ASCII one cell, everything else
/// two.
pub open spec fn display_width_of(s: Seq<char>) -> nat
    decreases s.len(),
{
    if s.len() == 0 {
        0
    } else {
        display_width_of(s.drop_last()) + if (s.last() as u32) < 0x80 {
            1nat
        } else {
            2nat
        }
    }
}

proof fn lemma_display_width_le_bytes(s: Seq<char>)
    ensures
        display_width_of(s) <= byte_len(s),
    decreases s.len(),
{
    if s.len() > 0 {
        lemma_display_width_le_bytes(s.drop_last());
    }
}

/// Display width of a cell, for lining up the pipes of the source.
pub fn display_width(text: &str) -> (r: usize)
    ensures
        r == display_width_of(text@),
{
    str_bytes_fit(text);
    let v = chars_of(text);
    let mut r: usize = 0;
    let mut k: usize = 0;
    assert(v@.take(0) =~= Seq::<char>::empty());
    while k < v.len()
        invariant
            k <= v.len(),
            v@ == text@,
            byte_len(v@) <= usize::MAX,
            r == display_width_of(v@.take(k as int)),
        decreases v.len() - k,
    {
        proof {
            assert(v@.take(k + 1).drop_last() =~= v@.take(k as int));
            lemma_display_width_le_bytes(v@.take(k + 1));
            lemma_byte_len_take_le(v@, k + 1);
        }
        if (v[k] as u32) < 0x80 {
            r += 1;
        } else {
            r += 2;
        }
        k += 1;
    }
    assert(v@.take(v.len() as int) =~= v@);
    r
}

/// The text of a line with its heading marks and indentation taken off.
pub open spec fn heading_body(line: Seq<char>) -> Seq<char> {
    let t = trim_start(line);
    trim_start(t.skip(run_of(t, '#') as int))
}

/// A line made a heading of `level`; level 0 makes it body text.
pub open spec fn with_heading(line: Seq<char>, level: nat) -> Seq<char> {
    if level == 0 {
        heading_body(line)
    } else {
        Seq::new(level, |k: int| '#') + seq![' '] + heading_body(line)
    }
}

/// Make a line a heading of `level`; 0 turns it back into body text.
pub fn set_heading(line: &str, level: u8) -> (r: String)
    ensures
        r@ == with_heading(line@, level as nat),
{
    let v = chars_of(line);
    let n = v.len();
    let (l, _) = trim_bounds(&v, 0, n);
    assert(v@.subrange(0, n as int) =~= v@);
    let hashes = count_run(&v, l, n, '#');
    let (b, _) = trim_bounds(&v, l + hashes, n);
    proof {
        assert(v@.subrange(l as int, n as int).skip(hashes as int) =~= v@.subrange(l + hashes, n as int));
    }
    let body = copy_range(&v, b, n);
    if level == 0 {
        return string_of(&body);
    }
    let mut r = String::new();
    let mut k: u8 = 0;
    while k < level
        invariant
            k <= level,
            r@ == Seq::new(k as nat, |t: int| '#'),
        decreases level - k,
    {
        r.push('#');
        k += 1;
        assert(r@ =~= Seq::new(k as nat, |t: int| '#'));
    }
    r.push(' ');
    push_chars(&mut r, &body);
    r
}

/// A line with its bullet taken off, or given one.
pub open spec fn bullet_toggled(line: Seq<char>) -> Seq<char> {
    let body = trim_start(line);
    if body.len() >= 2 && (body[0] == '-' || body[0] == '*') && body[1] == ' ' {
        body.skip(2)
    } else if body.len() == 0 {
        body
    } else {
        seq!['-', ' '] + body
    }
}

/// Switch a line between a bullet item (`- `, `* `) and plain text.
pub fn toggle_bullet(line: &str) -> (r: String)
    ensures
        r@ == bullet_toggled(line@),
{
    let v = chars_of(line);
    let n = v.len();
    let (l, _) = trim_bounds(&v, 0, n);
    assert(v@.subrange(0, n as int) =~= v@);
    let ghost body = v@.subrange(l as int, n as int);
    if n - l >= 2 && (v[l] == '-' || v[l] == '*') && v[l + 1] == ' ' {
        assert(body[0] == v@[l as int] && body[1] == v@[l + 1]);
        assert(body.skip(2) =~= v@.subrange(l + 2, n as int));
        return string_of_range(&v, l + 2, n);
    }
    if n - l >= 2 {
        assert(body[0] == v@[l as int] && body[1] == v@[l + 1]);
    }
    if l == n {
        return String::new();
    }
    let mut r = String::new();
    r.push('-');
    r.push(' ');
    let rest = copy_range(&v, l, n);
    push_chars(&mut r, &rest);
    assert(r@ =~= seq!['-', ' '] + body);
    r
}

/// Byte position of character `index`, or the end past the last character.
pub fn byte_at_char(text: &str, index: usize) -> (r: usize)
    ensures
        r == byte_len(text@.take(if index < text@.len() { index as int } else { text@.len() as int })),
{
    str_bytes_fit(text);
    let v = chars_of(text);
    let c = if index < v.len() {
        index
    } else {
        v.len()
    };
    proof {
        lemma_byte_len_take_le(v@, c as int);
    }
    prefix_bytes(&v, c)
}


// ---------------------------------------------------------------------------
// Line positions.

/// Byte range of piece `k`, its `'\n'` and a trailing `'\r'` left out.
pub open spec fn line_model(ps: Seq<Seq<char>>, k: int) -> (nat, nat) {
    (piece_start(ps, k), piece_start(ps, k) + byte_len(strip_cr(ps[k])))
}

/// Byte range of every line of `s`; an empty text, or one ending in a
/// newline, still ends with an empty line for the cursor to stand on.
pub open spec fn line_ranges_model(s: Seq<char>) -> Seq<(nat, nat)> {
    let ps = split_nl(s);
    Seq::new(ps.len(), |k: int| line_model(ps, k))
}

proof fn lemma_strip_cr_bytes(raw: Seq<char>)
    ensures
        raw.len() > 0 && raw.last() == '\r' ==> byte_len(strip_cr(raw)) + 1 == byte_len(raw),
        !(raw.len() > 0 && raw.last() == '\r') ==> strip_cr(raw) == raw,
{
    if raw.len() > 0 && raw.last() == '\r' {
        assert(raw.drop_last() + seq!['\r'] =~= raw);
        lemma_byte_len_concat(raw.drop_last(), seq!['\r']);
        assert(seq!['\r'].drop_last() =~= Seq::<char>::empty());
    }
}

/// Byte range of every line of a text, line breaks (and a `'\r'` before
/// them) left out.
pub fn line_ranges(text: &str) -> (r: Vec<Range<usize>>)
    ensures
        crate::diff_editor::ranges_model(r@) == line_ranges_model(text@),
{
    str_bytes_fit(text);
    let v = chars_of(text);
    let n = v.len();
    let ghost s = v@;
    let mut out: Vec<Range<usize>> = Vec::new();
    let mut piece: usize = 0;
    let mut p: usize = 0;
    let mut byte_start: usize = 0;
    let mut byte_pos: usize = 0;
    proof {
        assert(s.take(0) =~= Seq::<char>::empty());
        assert(s.subrange(0, 0) =~= Seq::<char>::empty());
    }
    loop
        invariant
            n == v.len(),
            s == v@,
            s == text@,
            byte_len(s) <= usize::MAX,
            piece <= p <= n,
            split_nl(s.take(p as int)).len() == out.len() + 1,
            split_nl(s.take(p as int)).last() == s.subrange(piece as int, p as int),
            byte_start == piece_start(split_nl(s.take(p as int)), out.len() as int),
            byte_pos == byte_len(s.take(p as int)),
            byte_pos == byte_start + byte_len(s.subrange(piece as int, p as int)),
            forall|k: int| 0 <= k < out.len() ==> #[trigger] crate::diff_editor::ranges_model(out@)[k] == line_model(split_nl(s.take(p as int)), k),
        decreases n - p,
    {
        let ghost ps = split_nl(s.take(p as int));
        let ghost raw = s.subrange(piece as int, p as int);
        if p == n || v[p] == '\n' {
            let end = if p > piece && v[p - 1] == '\r' {
                proof {
                    lemma_strip_cr_bytes(raw);
                    assert(raw.last() == v@[p - 1]);
                }
                byte_pos - 1
            } else {
                proof {
                    lemma_strip_cr_bytes(raw);
                    if raw.len() > 0 {
                        assert(raw.last() == v@[p - 1]);
                    }
                }
                byte_pos
            };
            let ghost before = out@;
            out.push(byte_start..end);
            if p == n {
                proof {
                    assert(s.take(n as int) =~= s);
                    let target = line_ranges_model(text@);
                    assert forall|k: int| 0 <= k < out.len() implies #[trigger] crate::diff_editor::ranges_model(out@)[k] == target[k] by {
                        if k < before.len() {
                            assert(crate::diff_editor::ranges_model(out@)[k] == crate::diff_editor::ranges_model(before)[k]);
                        }
                    }
                    assert(crate::diff_editor::ranges_model(out@) =~= target);
                }
                return out;
            }
            proof {
                let t2 = s.take(p + 1);
                assert(t2.drop_last() =~= s.take(p as int));
                assert(t2.last() == v@[p as int]);
                let ps2 = split_nl(t2);
                assert(ps2 == ps.push(seq![]));
                lemma_piece_start_prefix(ps, ps2, before.len() as int);
                assert forall|k: int| 0 <= k < out.len() implies #[trigger] crate::diff_editor::ranges_model(out@)[k] == line_model(ps2, k) by {
                    lemma_piece_start_prefix(ps, ps2, k);
                    if k < before.len() {
                        assert(crate::diff_editor::ranges_model(out@)[k] == crate::diff_editor::ranges_model(before)[k]);
                    }
                }
                lemma_byte_len_concat(s.take(p as int), seq!['\n']);
                assert(t2 =~= s.take(p as int) + seq!['\n']);
                assert(seq!['\n'].drop_last() =~= Seq::<char>::empty());
                lemma_byte_len_take_le(s, p + 1);
                assert(s.subrange(p + 1, p + 1) =~= Seq::<char>::empty());
            }
            byte_pos += 1;
            p += 1;
            piece = p;
            byte_start = byte_pos;
        } else {
            let w = char_width(v[p]);
            proof {
                let t2 = s.take(p + 1);
                assert(t2.drop_last() =~= s.take(p as int));
                assert(t2.last() == v@[p as int]);
                let ps2 = split_nl(t2);
                assert(ps2 == ps.update(ps.len() - 1, ps.last().push(v@[p as int])));
                assert(s.subrange(piece as int, p + 1) =~= raw.push(v@[p as int]));
                assert(s.subrange(piece as int, p + 1).drop_last() =~= raw);
                lemma_piece_start_prefix(ps, ps2, out.len() as int);
                assert forall|k: int| 0 <= k < out.len() implies #[trigger] crate::diff_editor::ranges_model(out@)[k] == line_model(ps2, k) by {
                    lemma_piece_start_prefix(ps, ps2, k);
                    assert(ps2[k] == ps[k]);
                }
                assert(t2 =~= s.take(p as int) + seq![v@[p as int]]);
                lemma_byte_len_concat(s.take(p as int), seq![v@[p as int]]);
                assert(seq![v@[p as int]].drop_last() =~= Seq::<char>::empty());
                lemma_byte_len_take_le(s, p + 1);
            }
            byte_pos += w;
            p += 1;
        }
    }
}

/// First index `k` with `byte <= rs[k].1`, or `rs.len() - 1` when none.
pub open spec fn first_line_ending_after(rs: Seq<(nat, nat)>, byte: nat, k: int) -> bool {
    &&& 0 <= k < rs.len()
    &&& forall|j: int| 0 <= j < k ==> byte > #[trigger] rs[j].1
    &&& (byte <= rs[k].1 || k == rs.len() - 1)
}

/// The line a byte position falls on; past the end, the last line.
pub fn line_at_byte(ranges: &[Range<usize>], byte: usize) -> (r: usize)
    requires
        ranges.len() > 0,
    ensures
        first_line_ending_after(crate::diff_editor::ranges_model(ranges@), byte as nat, r as int),
{
    let ghost rs = crate::diff_editor::ranges_model(ranges@);
    let mut k: usize = 0;
    while k < ranges.len()
        invariant
            rs == crate::diff_editor::ranges_model(ranges@),
            k <= ranges.len(),
            forall|j: int| 0 <= j < k ==> byte > #[trigger] rs[j].1,
        decreases ranges.len() - k,
    {
        assert(rs[k as int].1 == ranges@[k as int].end);
        if byte <= ranges[k].end {
            return k;
        }
        k += 1;
    }
    ranges.len() - 1
}


/// Whether `edit` may turn the line `line` into `result`.
pub open spec fn edits_to<F: Fn(&str) -> String>(edit: F, line: Seq<char>, result: Seq<char>) -> bool {
    exists|x: &str, y: String| x@ == line && y@ == result && call_ensures(edit, (x,), y)
}


/// Character bounds of lines `first..=last` of `s` (0-based): from the start
/// of the first to the end of the last, a trailing `'\r'` left out.
pub open spec fn lines_chars(s: Seq<char>, first: int, last: int) -> (int, int) {
    let ps = split_nl(s);
    (char_start(ps, first), char_start(ps, last) + strip_cr(ps[last]).len())
}

/// `s` with lines `first..=last` replaced by `outs` joined with newlines.
pub open spec fn lines_replaced(s: Seq<char>, first: int, last: int, outs: Seq<Seq<char>>) -> Seq<char> {
    let (c0, c1) = lines_chars(s, first, last);
    s.take(c0) + join_text(outs, "\n"@) + s.skip(c1)
}

/// The result of running `edit` over every line that the byte range
/// `range` touches: `first` and `last` are the lines of its two ends, each of
/// the lines in between is turned by `edit` into the matching entry of
/// `outs`, and the new range covers the rewritten lines.
pub open spec fn lines_mapped<F: Fn(&str) -> String>(
    edit: F,
    s: Seq<char>,
    range: Range<usize>,
    first: int,
    last: int,
    outs: Seq<Seq<char>>,
    r: (Seq<char>, (nat, nat)),
) -> bool {
    let rs = line_ranges_model(s);
    let (c0, c1) = lines_chars(s, first, last);
    let parts = split_nl(s.subrange(c0, c1));
    &&& first_line_ending_after(rs, range.start as nat, first)
    &&& first_line_ending_after(
        rs,
        if range.end > range.start {
            range.end as nat
        } else {
            range.start as nat
        },
        last,
    )
    &&& outs.len() == parts.len()
    &&& forall|i: int| 0 <= i < parts.len() ==> edits_to(edit, #[trigger] parts[i], outs[i])
    &&& r.0 == lines_replaced(s, first, last, outs)
    &&& r.1 == (rs[first].0, rs[first].0 + byte_len(join_text(outs, "\n"@)))
}

proof fn lemma_line_order(rs: Seq<(nat, nat)>, a: nat, b: nat, f: int, l: int)
    requires
        a <= b,
        first_line_ending_after(rs, a, f),
        first_line_ending_after(rs, b, l),
    ensures
        f <= l,
{
    if l < f {
        assert(a > rs[l].1);
    }
}

/// Run `edit` over every line the selection touches (a selection inside a
/// line counts the whole line). Returns the new text and the byte range of
/// the rewritten lines.
pub fn map_lines<F: Fn(&str) -> String>(text: &str, range: &Range<usize>, edit: F) -> (r: (String, Range<usize>))
    requires
        forall|x: &str| #[trigger] call_requires(edit, (x,)),
    ensures
        exists|first: int, last: int, outs: Seq<Seq<char>>|
            lines_mapped(edit, text@, *range, first, last, outs, (r.0@, (r.1.start as nat, r.1.end as nat))),
{
    let ranges = line_ranges(text);
    let ghost rs = line_ranges_model(text@);
    let v = chars_of(text);
    let ghost ps = split_nl(v@);
    proof {
        lemma_split_nl_nonempty(v@);
    }
    let starts = line_starts(&v);
    let first = line_at_byte(ranges.as_slice(), range.start);
    let hi = if range.end > range.start {
        range.end
    } else {
        range.start
    };
    let last = line_at_byte(ranges.as_slice(), hi);
    proof {
        lemma_line_order(rs, range.start as nat, hi as nat, first as int, last as int);
    }
    let c0 = starts[first];
    let (ls, le) = match line_range(&starts, &v, last + 1) {
        Some(b) => b,
        None => (0, 0),
    };
    proof {
        lemma_char_start_le(ps, first as int, last as int);
        lemma_split_nl_piece(v@, last as int);
    }
    let c1 = if le > ls && v[le - 1] == '\r' {
        le - 1
    } else {
        le
    };
    proof {
        let raw = ps[last as int];
        assert(v@.subrange(ls as int, le as int) == raw);
        if raw.len() > 0 {
            assert(raw.last() == v@[le - 1]);
        }
        assert(lines_chars(v@, first as int, last as int) == (c0 as int, c1 as int));
    }
    let parts = crate::text::split_pieces(&v, c0, c1, '\n');
    let ghost pieces = split_nl(v@.subrange(c0 as int, c1 as int));
    proof {
        assert(crate::text::split_at_char(v@.subrange(c0 as int, c1 as int), '\n') == pieces) by {
            lemma_split_nl_is_split_at_char(v@.subrange(c0 as int, c1 as int));
        }
    }
    let mut outs: Vec<String> = Vec::new();
    let mut k: usize = 0;
    while k < parts.len()
        invariant
            k <= parts.len(),
            strings_model(parts@) == pieces,
            outs.len() == k,
            forall|x: &str| #[trigger] call_requires(edit, (x,)),
            forall|i: int| 0 <= i < k ==> edits_to(edit, #[trigger] pieces[i], strings_model(outs@)[i]),
        decreases parts.len() - k,
    {
        let out = edit(parts[k].as_str());
        let ghost before = outs@;
        outs.push(out);
        proof {
            assert(pieces[k as int] == parts@[k as int]@);
            assert forall|i: int| 0 <= i < k + 1 implies edits_to(edit, #[trigger] pieces[i], strings_model(outs@)[i]) by {
                if i < k {
                    assert(strings_model(outs@)[i] == strings_model(before)[i]);
                } else {
                    assert(strings_model(outs@)[i] == out@);
                }
            }
        }
        k += 1;
    }
    let joined = join_strings(&outs, "\n");
    let joined_chars = chars_of(joined.as_str());
    let head = copy_range(&v, 0, c0);
    let tail = copy_range(&v, c1, v.len());
    let mut out = string_of(&head);
    push_chars(&mut out, &joined_chars);
    push_chars(&mut out, &tail);
    proof {
        assert(v@.subrange(0, c0 as int) =~= v@.take(c0 as int));
        assert(v@.subrange(c1 as int, v.len() as int) =~= v@.skip(c1 as int));
        assert(out@ == lines_replaced(v@, first as int, last as int, strings_model(outs@)));
    }
    str_bytes_fit(out.as_str());
    let start = ranges[first].start;
    proof {
        assert(rs[first as int].0 == start);
        lemma_piece_start_bytes(v@, first as int);
        assert(out@ =~= v@.take(c0 as int) + joined@ + v@.skip(c1 as int));
        lemma_byte_len_concat(v@.take(c0 as int), joined@);
        lemma_byte_len_concat(v@.take(c0 as int) + joined@, v@.skip(c1 as int));
    }
    proof {
        assert(joined_chars@.take(joined_chars.len() as int) =~= joined_chars@);
        assert(c0 as int == char_start(ps, first as int));
        assert(start == byte_len(v@.take(c0 as int)));
        assert(byte_len(out@) == start + byte_len(joined@) + byte_len(v@.skip(c1 as int)));
    }
    let width = prefix_bytes(&joined_chars, joined_chars.len());
    let end = start + width;
    let r = (out, start..end);
    proof {
        let w = strings_model(outs@);
        assert(lines_mapped(edit, text@, *range, first as int, last as int, w, (r.0@, (r.1.start as nat, r.1.end as nat))));
    }
    r
}

pub proof fn lemma_split_nl_is_split_at_char(s: Seq<char>)
    ensures
        crate::text::split_at_char(s, '\n') == split_nl(s),
    decreases s.len(),
{
    if s.len() > 0 {
        lemma_split_nl_is_split_at_char(s.drop_last());
    }
}


// ---------------------------------------------------------------------------
// Bold.

/// The selection `a..b` (characters) of `s` made bold, or its bold marks
/// taken off: a selection that itself starts and ends with `**` loses them;
/// one enclosed by `**` on both sides loses those; anything else is wrapped.
/// Gives the new text and the new selection as character indices.
pub open spec fn bold_toggled(s: Seq<char>, a: int, b: int) -> (Seq<char>, int, int) {
    let sel = s.subrange(a, b);
    if sel.len() >= 4 && sel[0] == '*' && sel[1] == '*' && sel[sel.len() - 2] == '*' && sel[sel.len() - 1] == '*' {
        let inner = sel.subrange(2, sel.len() - 2);
        (s.take(a) + inner + s.skip(b), a, a + inner.len())
    } else if a >= 2 && s[a - 2] == '*' && s[a - 1] == '*' && b + 2 <= s.len() && s[b] == '*' && s[b + 1] == '*' {
        (s.take(a - 2) + sel + s.skip(b + 2), a - 2, b - 2)
    } else {
        (s.take(a) + seq!['*', '*'] + sel + seq!['*', '*'] + s.skip(b), a + 2, b + 2)
    }
}

/// The bold toggle on characters.
fn bold_chars(v: &Vec<char>, a: usize, b: usize) -> (r: (Vec<char>, usize, usize))
    requires
        a <= b <= v.len(),
    ensures
        (r.0@, r.1 as int, r.2 as int) == bold_toggled(v@, a as int, b as int),
        r.1 <= r.2 <= r.0.len(),
{
    let n = v.len();
    let ghost s = v@;
    let ghost sel = s.subrange(a as int, b as int);
    if b - a >= 4 && v[a] == '*' && v[a + 1] == '*' && v[b - 2] == '*' && v[b - 1] == '*' {
        assert(sel[0] == v@[a as int] && sel[1] == v@[a + 1]);
        assert(sel[sel.len() - 2] == v@[b - 2] && sel[sel.len() - 1] == v@[b - 1]);
        let head = copy_range(&v, 0, a);
        let inner = copy_range(&v, a + 2, b - 2);
        let tail = copy_range(&v, b, n);
        let mut out = head;
        let mut inner_chars = inner;
        out.append(&mut inner_chars);
        let mut t = tail;
        out.append(&mut t);
        assert(sel.subrange(2, sel.len() - 2) =~= v@.subrange(a + 2, b - 2));
        assert(out@ =~= s.take(a as int) + sel.subrange(2, sel.len() - 2) + s.skip(b as int));
        (out, a, a + (b - 2 - (a + 2)))
    } else {
        proof {
            if b - a >= 4 {
                assert(sel[0] == v@[a as int] && sel[1] == v@[a + 1]);
                assert(sel[sel.len() - 2] == v@[b - 2] && sel[sel.len() - 1] == v@[b - 1]);
            }
        }
        if a >= 2 && v[a - 2] == '*' && v[a - 1] == '*' && n - b >= 2 && v[b] == '*' && v[b + 1] == '*' {
            let mut out = copy_range(&v, 0, a - 2);
            let mut mid = copy_range(&v, a, b);
            out.append(&mut mid);
            let mut tail = copy_range(&v, b + 2, n);
            out.append(&mut tail);
            assert(out@ =~= s.take(a - 2) + sel + s.skip(b + 2));
            (out, a - 2, b - 2)
        } else {
            let mut out = copy_range(&v, 0, a);
            out.push('*');
            out.push('*');
            let mut mid = copy_range(&v, a, b);
            out.append(&mut mid);
            out.push('*');
            out.push('*');
            let mut tail = copy_range(&v, b, n);
            out.append(&mut tail);
            assert(out@ =~= s.take(a as int) + seq!['*', '*'] + sel + seq!['*', '*'] + s.skip(b as int));
            assert(out.len() == n + 4);
            (out, a + 2, b + 2)
        }
    }
}

/// Make the selection bold, or take its bold marks off when the selection
/// or its two sides already carry them. Returns the new text and the new
/// selection (bytes); an empty selection gets a pair of empty marks.
pub fn toggle_bold(text: &str, range: &Range<usize>) -> (r: (String, Range<usize>))
    requires
        range.start <= range.end,
        crate::text::at_boundary(text@, range.start as nat),
        crate::text::at_boundary(text@, range.end as nat),
    ensures
        ({
            let a = crate::text::char_index_of(text@, range.start as nat);
            let b = crate::text::char_index_of(text@, range.end as nat);
            let m = bold_toggled(text@, a, b);
            &&& r.0@ == m.0
            &&& r.1.start == byte_len(m.0.take(m.1))
            &&& r.1.end == byte_len(m.0.take(m.2))
        }),
{
    str_bytes_fit(text);
    let v = chars_of(text);
    let a = match crate::text::char_at_byte(&v, range.start) {
        Some(k) => k,
        None => 0,
    };
    let b = match crate::text::char_at_byte(&v, range.end) {
        Some(k) => k,
        None => 0,
    };
    proof {
        if a > b {
            crate::text::lemma_byte_len_take_mono(v@, b as int, a as int);
        }
    }
    let (new_chars, lo, hi) = bold_chars(&v, a, b);
    let result = string_of(&new_chars);
    str_bytes_fit(result.as_str());
    proof {
        lemma_byte_len_take_le(new_chars@, lo as int);
        lemma_byte_len_take_le(new_chars@, hi as int);
    }
    let start = prefix_bytes(&new_chars, lo);
    let end = prefix_bytes(&new_chars, hi);
    (result, start..end)
}


// ---------------------------------------------------------------------------
// Tidying blank lines.

/// The first `k` lines with trailing whitespace taken off and every run of
/// blank lines merged into one; the flag says the last kept line is blank.
pub open spec fn tidy_lines(ps: Seq<Seq<char>>, k: int) -> (Seq<Seq<char>>, bool)
    decreases k,
{
    if k <= 0 {
        (seq![], false)
    } else {
        let (out, prev_blank) = tidy_lines(ps, k - 1);
        let t = crate::text::trim_end(ps[k - 1]);
        if t.len() == 0 {
            if prev_blank {
                (out, true)
            } else {
                (out.push(t), true)
            }
        } else {
            (out.push(t), false)
        }
    }
}

/// `v` without its trailing empty lines.
pub open spec fn drop_empty_tail(v: Seq<Seq<char>>) -> Seq<Seq<char>>
    decreases v.len(),
{
    if v.len() > 0 && v.last().len() == 0 {
        drop_empty_tail(v.drop_last())
    } else {
        v
    }
}

/// A text with runs of blank lines merged, trailing spaces gone, and one
/// newline at the end (none for an empty result).
pub open spec fn tidied(s: Seq<char>) -> Seq<char> {
    let ps = split_nl(s);
    let joined = join_text(drop_empty_tail(tidy_lines(ps, ps.len() as int).0), "\n"@);
    if joined.len() == 0 {
        joined
    } else {
        joined.push('\n')
    }
}

/// Merge runs of blank lines, drop trailing spaces, end with one newline.
pub fn tidy_blank_lines(text: &str) -> (r: String)
    ensures
        r@ == tidied(text@),
{
    let v = chars_of(text);
    let pieces = crate::text::split_pieces(&v, 0, v.len(), '\n');
    let ghost ps = split_nl(v@);
    proof {
        assert(v@.subrange(0, v.len() as int) =~= v@);
        lemma_split_nl_is_split_at_char(v@);
    }
    let mut lines: Vec<String> = Vec::new();
    let mut previous_blank = false;
    let mut k: usize = 0;
    while k < pieces.len()
        invariant
            k <= pieces.len(),
            strings_model(pieces@) == ps,
            (strings_model(lines@), previous_blank) == tidy_lines(ps, k as int),
        decreases pieces.len() - k,
    {
        let c = chars_of(pieces[k].as_str());
        let (_, h) = trim_end_bound(&c);
        let trimmed = string_of_range(&c, 0, h);
        proof {
            assert(ps[k as int] == pieces@[k as int]@);
        }
        let ghost before = lines@;
        if h == 0 {
            if !previous_blank {
                lines.push(trimmed);
                assert(strings_model(lines@) =~= strings_model(before).push(crate::text::trim_end(ps[k as int])));
            }
            previous_blank = true;
        } else {
            lines.push(trimmed);
            assert(strings_model(lines@) =~= strings_model(before).push(crate::text::trim_end(ps[k as int])));
            previous_blank = false;
        }
        k += 1;
    }
    let ghost kept = strings_model(lines@);
    while lines.len() > 0 && lines[lines.len() - 1].as_str().is_empty()
        invariant
            drop_empty_tail(strings_model(lines@)) == drop_empty_tail(kept),
        decreases lines.len(),
    {
        let ghost before = lines@;
        lines.pop();
        assert(strings_model(lines@) =~= strings_model(before).drop_last());
    }
    assert(drop_empty_tail(strings_model(lines@)) == strings_model(lines@));
    let mut joined = join_strings(&lines, "\n");
    if !joined.as_str().is_empty() {
        joined.push('\n');
    }
    joined
}

/// Bound of `v` with its trailing whitespace left out.
fn trim_end_bound(v: &Vec<char>) -> (r: ((), usize))
    ensures
        r.1 <= v.len(),
        v@.subrange(0, r.1 as int) == crate::text::trim_end(v@),
{
    let mut h = v.len();
    assert(v@.subrange(0, h as int) =~= v@);
    while h > 0 && is_whitespace(v[h - 1])
        invariant
            h <= v.len(),
            crate::text::trim_end(v@.subrange(0, h as int)) == crate::text::trim_end(v@),
        decreases h,
    {
        assert(v@.subrange(0, h as int).drop_last() =~= v@.subrange(0, h - 1));
        h -= 1;
    }
    ((), h)
}


// ---------------------------------------------------------------------------
// Lines of their own.

/// Index just past the last `'\n'` of `s[..c]`, or 0.
pub open spec fn line_start_before(s: Seq<char>, c: int) -> int
    decreases c,
{
    if c <= 0 {
        0
    } else if s[c - 1] == '\n' {
        c
    } else {
        line_start_before(s, c - 1)
    }
}

/// Index of the first `'\n'` at or after `i`, or the end.
pub open spec fn line_end_from(s: Seq<char>, i: int) -> int
    decreases s.len() - i,
{
    if i >= s.len() {
        s.len() as int
    } else if s[i] == '\n' {
        i
    } else {
        line_end_from(s, i + 1)
    }
}

/// `line` put on a line of its own at the start of the line holding
/// character `c`, pushing that line down; a blank line goes before it when
/// the line it lands on has text and the line above is not blank already.
/// Gives the new text and where `line` starts in it.
pub open spec fn own_line_spliced(s: Seq<char>, c: int, line: Seq<char>) -> (Seq<char>, int) {
    let ls = line_start_before(s, c);
    let le = line_end_from(s, ls);
    let padded = !is_blank(s.subrange(ls, le)) && ls > 0 && !(ls >= 2 && s[ls - 2] == '\n' && s[ls - 1] == '\n');
    let insertion = if padded {
        seq!['\n'] + line + seq!['\n']
    } else {
        line + seq!['\n']
    };
    (s.take(ls) + insertion + s.skip(ls), ls + if padded { 1int } else { 0int })
}

fn find_line_start(v: &Vec<char>, c: usize) -> (r: usize)
    requires
        c <= v.len(),
    ensures
        r == line_start_before(v@, c as int),
        r <= c,
{
    let mut k = c;
    while k > 0 && v[k - 1] != '\n'
        invariant
            k <= c <= v.len(),
            line_start_before(v@, k as int) == line_start_before(v@, c as int),
        decreases k,
    {
        k -= 1;
    }
    k
}

fn find_line_end(v: &Vec<char>, i: usize) -> (r: usize)
    requires
        i <= v.len(),
    ensures
        r == line_end_from(v@, i as int),
        i <= r <= v.len(),
{
    let mut k = i;
    while k < v.len() && v[k] != '\n'
        invariant
            i <= k <= v.len(),
            line_end_from(v@, k as int) == line_end_from(v@, i as int),
        decreases v.len() - k,
    {
        k += 1;
    }
    k
}

/// Put `line` on a line of its own at the start of the line `pos` (a byte
/// position, clamped to the end) falls on, pushing that line down. Returns
/// the byte range of `line` itself in the new text.
#[verifier::spinoff_prover]
#[verifier::rlimit(40)]
pub fn splice_own_line(text: &mut String, pos: usize, line: &str) -> (r: Range<usize>)
    requires
        crate::text::at_boundary(old(text)@, if (pos as nat) < byte_len(old(text)@) { pos as nat } else { byte_len(old(text)@) }),
    ensures
        ({
            let s = old(text)@;
            let c = crate::text::char_index_of(s, if (pos as nat) < byte_len(s) { pos as nat } else { byte_len(s) });
            let m = own_line_spliced(s, c, line@);
            &&& final(text)@ == m.0
            &&& r.start == byte_len(m.0.take(m.1))
            &&& r.end == r.start + byte_len(line@)
        }),
{
    crate::text::str_bytes_fit(text.as_str());
    let v = chars_of(text.as_str());
    assert(v@.take(v.len() as int) =~= v@);
    let total = prefix_bytes(&v, v.len());
    let clamped = if pos < total {
        pos
    } else {
        total
    };
    let c = match crate::text::char_at_byte(&v, clamped) {
        Some(k) => k,
        None => 0,
    };
    let ls = find_line_start(&v, c);
    let le = find_line_end(&v, ls);
    let (a, b) = trim_bounds(&v, ls, le);
    proof {
        lemma_trim_empty_iff_blank(v@.subrange(ls as int, le as int));
    }
    let padded = a < b && ls > 0 && !(ls >= 2 && v[ls - 2] == '\n' && v[ls - 1] == '\n');
    let lc = chars_of(line);
    let mut out = copy_range(&v, 0, ls);
    if padded {
        out.push('\n');
    }
    let content = out.len();
    let mut lv = copy_range(&lc, 0, lc.len());
    out.append(&mut lv);
    let content_end = out.len();
    out.push('\n');
    let mut tail = copy_range(&v, ls, v.len());
    out.append(&mut tail);
    proof {
        assert(lc@.subrange(0, lc.len() as int) =~= lc@);
        assert(v@.subrange(0, ls as int) =~= v@.take(ls as int));
        assert(v@.subrange(ls as int, v.len() as int) =~= v@.skip(ls as int));
        let m = own_line_spliced(v@, c as int, line@);
        assert(out@ =~= m.0);
        assert(content as int == m.1);
        assert(out@.take(content_end as int) =~= out@.take(content as int) + lc@);
    }
    *text = string_of(&out);
    crate::text::str_bytes_fit(text.as_str());
    proof {
        lemma_byte_len_take_le(out@, content as int);
        lemma_byte_len_take_le(out@, content_end as int);
        lemma_byte_len_concat(out@.take(content as int), lc@);
    }
    let start = prefix_bytes(&out, content);
    let end = prefix_bytes(&out, content_end);
    start..end
}


// ---------------------------------------------------------------------------
// Dates written the way documents write them.

/// A Chinese digit: 〇 一 二 三 四 五 六 七 八 九.
pub open spec fn chinese_digit(d: nat) -> char {
    if d == 0 {
        '〇'
    } else if d == 1 {
        '一'
    } else if d == 2 {
        '二'
    } else if d == 3 {
        '三'
    } else if d == 4 {
        '四'
    } else if d == 5 {
        '五'
    } else if d == 6 {
        '六'
    } else if d == 7 {
        '七'
    } else if d == 8 {
        '八'
    } else {
        '九'
    }
}

/// A year written digit by digit: 2025 is 二〇二五.
pub open spec fn chinese_year(n: nat) -> Seq<char>
    decreases n,
{
    if n < 10 {
        seq![chinese_digit(n)]
    } else {
        chinese_year(n / 10).push(chinese_digit(n % 10))
    }
}

/// A month or day number written in words: 十, 十一, 二十, 二十一, 三十一.
pub open spec fn chinese_small(n: nat) -> Seq<char> {
    if n < 10 {
        seq![chinese_digit(n)]
    } else if n == 10 {
        seq!['十']
    } else if n < 20 {
        seq!['十', chinese_digit((n - 10) as nat)]
    } else if n % 10 == 0 {
        seq![chinese_digit(n / 10), '十']
    } else {
        seq![chinese_digit(n / 10), '十', chinese_digit(n % 10)]
    }
}

fn chinese_digit_exec(d: u32) -> (c: char)
    requires
        d < 10,
    ensures
        c == chinese_digit(d as nat),
{
    if d == 0 {
        '〇'
    } else if d == 1 {
        '一'
    } else if d == 2 {
        '二'
    } else if d == 3 {
        '三'
    } else if d == 4 {
        '四'
    } else if d == 5 {
        '五'
    } else if d == 6 {
        '六'
    } else if d == 7 {
        '七'
    } else if d == 8 {
        '八'
    } else {
        '九'
    }
}

fn push_chinese_year(out: &mut String, n: u32)
    ensures
        final(out)@ == old(out)@ + chinese_year(n as nat),
    decreases n,
{
    if n >= 10 {
        push_chinese_year(out, n / 10);
    }
    let ghost mid = out@;
    out.push(chinese_digit_exec(n % 10));
    assert(out@ =~= old(out)@ + chinese_year(n as nat));
}

/// The date of a document, as its date line writes it: the year digit by
/// digit, month and day in words, such as 二〇二五年八月十一日.
pub fn chinese_date(year: u32, month: u32, day: u32) -> (r: String)
    requires
        1 <= month <= 12,
        1 <= day <= 31,
    ensures
        r@ == chinese_year(year as nat) + seq!['年'] + chinese_small(month as nat) + seq!['月'] + chinese_small(
            day as nat,
        ) + seq!['日'],
{
    let mut r = String::new();
    push_chinese_year(&mut r, year);
    r.push('年');
    push_chinese_small(&mut r, month);
    r.push('月');
    push_chinese_small(&mut r, day);
    r.push('日');
    r
}

fn push_chinese_small(out: &mut String, n: u32)
    requires
        n < 100,
    ensures
        final(out)@ == old(out)@ + chinese_small(n as nat),
{
    if n < 10 {
        out.push(chinese_digit_exec(n));
    } else if n == 10 {
        out.push('十');
    } else if n < 20 {
        out.push('十');
        out.push(chinese_digit_exec(n - 10));
    } else if n % 10 == 0 {
        out.push(chinese_digit_exec(n / 10));
        out.push('十');
    } else {
        out.push(chinese_digit_exec(n / 10));
        out.push('十');
        out.push(chinese_digit_exec(n % 10));
    }
    assert(out@ =~= old(out)@ + chinese_small(n as nat));
}

// ---------------------------------------------------------------------------
// Tidying twice.

/// Lines as tidying leaves them: no trailing whitespace, no newline, and no
/// blank line right after another.
pub open spec fn tidy_form(ls: Seq<Seq<char>>) -> bool {
    &&& forall|k: int| 0 <= k < ls.len() ==> crate::text::trim_end(#[trigger] ls[k]) == ls[k]
    &&& forall|k: int| 0 <= k < ls.len() ==> crate::table::no_sep(#[trigger] ls[k], '\n')
    &&& forall|k: int| 1 <= k < ls.len() && (#[trigger] ls[k]).len() == 0 ==> ls[k - 1].len() > 0
}

pub proof fn lemma_trim_end_idem(s: Seq<char>)
    ensures
        crate::text::trim_end(crate::text::trim_end(s)) == crate::text::trim_end(s),
        forall|k: int| 0 <= k < crate::text::trim_end(s).len() ==> #[trigger] crate::text::trim_end(s)[k] == s[k],
        crate::text::trim_end(s).len() <= s.len(),
    decreases s.len(),
{
    if s.len() > 0 && is_ws(s.last()) {
        lemma_trim_end_idem(s.drop_last());
        assert forall|k: int| 0 <= k < crate::text::trim_end(s).len() implies #[trigger] crate::text::trim_end(s)[k] == s[k] by {
            assert(crate::text::trim_end(s) == crate::text::trim_end(s.drop_last()));
            assert(s.drop_last()[k] == s[k]);
        }
    }
}

/// What `tidy_lines` keeps is in tidy form, and its flag says the last kept
/// line is blank.
proof fn lemma_tidy_lines_form(ps: Seq<Seq<char>>, k: int)
    requires
        0 <= k <= ps.len(),
        forall|t: int| 0 <= t < ps.len() ==> crate::table::no_sep(#[trigger] ps[t], '\n'),
    ensures
        tidy_form(tidy_lines(ps, k).0),
        tidy_lines(ps, k).1 == (tidy_lines(ps, k).0.len() > 0 && tidy_lines(ps, k).0.last().len() == 0),
    decreases k,
{
    if k > 0 {
        lemma_tidy_lines_form(ps, k - 1);
        let (out, pb) = tidy_lines(ps, k - 1);
        let t = crate::text::trim_end(ps[k - 1]);
        lemma_trim_end_idem(ps[k - 1]);
        assert(crate::table::no_sep(ps[k - 1], '\n'));
        assert(crate::table::no_sep(t, '\n')) by {
            assert forall|j: int| 0 <= j < t.len() implies #[trigger] t[j] != '\n' by {
                assert(t[j] == ps[k - 1][j]);
            }
        }
        let res = tidy_lines(ps, k).0;
        assert forall|j: int| 0 <= j < res.len() implies crate::text::trim_end(#[trigger] res[j]) == res[j]
            && crate::table::no_sep(res[j], '\n') by {
            if j < out.len() {
                assert(res[j] == out[j]);
            }
        }
        assert forall|j: int| 1 <= j < res.len() && (#[trigger] res[j]).len() == 0 implies res[j - 1].len() > 0 by {
            if j < out.len() {
                assert(res[j] == out[j] && res[j - 1] == out[j - 1]);
            }
        }
    }
}

/// Lines already in tidy form come out of `tidy_lines` as they are.
proof fn lemma_tidy_lines_fixed(ls: Seq<Seq<char>>, k: int)
    requires
        0 <= k <= ls.len(),
        tidy_form(ls),
    ensures
        tidy_lines(ls, k).0 == ls.take(k),
        tidy_lines(ls, k).1 == (k > 0 && ls[k - 1].len() == 0),
    decreases k,
{
    if k > 0 {
        lemma_tidy_lines_fixed(ls, k - 1);
        assert(crate::text::trim_end(ls[k - 1]) == ls[k - 1]);
        if k >= 2 && ls[k - 1].len() == 0 {
            assert(ls[k - 2].len() > 0);
        }
        assert(ls.take(k - 1).push(ls[k - 1]) =~= ls.take(k));
    } else {
        assert(ls.take(0) =~= Seq::<Seq<char>>::empty());
    }
}

proof fn lemma_drop_empty_tail_form(v: Seq<Seq<char>>)
    requires
        tidy_form(v),
    ensures
        tidy_form(drop_empty_tail(v)),
        drop_empty_tail(v).len() > 0 ==> drop_empty_tail(v).last().len() > 0,
        drop_empty_tail(v) == v.take(drop_empty_tail(v).len() as int),
    decreases v.len(),
{
    if v.len() > 0 && v.last().len() == 0 {
        let d = v.drop_last();
        assert forall|k: int| 0 <= k < d.len() implies crate::text::trim_end(#[trigger] d[k]) == d[k]
            && crate::table::no_sep(d[k], '\n') by {
            assert(d[k] == v[k]);
        }
        assert forall|k: int| 1 <= k < d.len() && (#[trigger] d[k]).len() == 0 implies d[k - 1].len() > 0 by {
            assert(d[k] == v[k] && d[k - 1] == v[k - 1]);
        }
        lemma_drop_empty_tail_form(d);
        let r = drop_empty_tail(d);
        assert(d.take(r.len() as int) =~= v.take(r.len() as int));
    } else {
        assert(v.take(v.len() as int) =~= v);
    }
}

/// The text tidying writes for lines `d`: joined, and a newline at the end
/// unless empty.
pub open spec fn tidy_text(d: Seq<Seq<char>>) -> Seq<char> {
    let joined = join_text(d, "\n"@);
    if joined.len() == 0 {
        joined
    } else {
        joined.push('\n')
    }
}

proof fn lemma_tidy_text_fixed(d: Seq<Seq<char>>)
    requires
        tidy_form(d),
        d.len() > 0 ==> d.last().len() > 0,
    ensures
        tidied(tidy_text(d)) == tidy_text(d),
{
    reveal_strlit("\n");
    assert("\n"@ =~= seq!['\n']);
    let j = join_text(d, "\n"@);
    let t = tidy_text(d);
    if d.len() == 0 {
        assert(t =~= Seq::<char>::empty());
        let one = seq![Seq::<char>::empty()];
        assert(split_nl(t) =~= one);
        assert(tidy_form(one)) by {
            assert(crate::text::trim_end(one[0]) == one[0]);
            assert(crate::table::no_sep(one[0], '\n'));
        }
        lemma_tidy_lines_fixed(one, 1);
        assert(one.take(1) =~= one);
        assert(drop_empty_tail(one) == drop_empty_tail(one.drop_last()));
        assert(one.drop_last() =~= Seq::<Seq<char>>::empty());
    } else {
        let e = d.push(Seq::<char>::empty());
        assert(e.drop_last() =~= d);
        assert(join_text(e, "\n"@) == j + "\n"@ + Seq::<char>::empty());
        lemma_join_nonempty(d);
        assert(t =~= join_text(e, seq!['\n']));
        assert forall|k: int| 0 <= k < e.len() implies crate::table::no_sep(#[trigger] e[k], '\n') by {
            if k < d.len() {
                assert(e[k] == d[k]);
            }
        }
        crate::table::lemma_split_join_sep(e, '\n');
        lemma_split_nl_is_split_at_char(t);
        assert(split_nl(t) == e);
        assert(tidy_form(e)) by {
            assert forall|k: int| 0 <= k < e.len() implies crate::text::trim_end(#[trigger] e[k]) == e[k] by {
                if k < d.len() {
                    assert(e[k] == d[k]);
                } else {
                    assert(e[k] =~= Seq::<char>::empty());
                }
            }
            assert forall|k: int| 1 <= k < e.len() && (#[trigger] e[k]).len() == 0 implies e[k - 1].len() > 0 by {
                if k < d.len() {
                    assert(e[k] == d[k] && e[k - 1] == d[k - 1]);
                } else {
                    assert(e[k - 1] == d.last());
                }
            }
        }
        lemma_tidy_lines_fixed(e, e.len() as int);
        assert(e.take(e.len() as int) =~= e);
        assert(drop_empty_tail(e) == drop_empty_tail(d));
        assert(drop_empty_tail(d) == d);
    }
}

proof fn lemma_join_nonempty(d: Seq<Seq<char>>)
    requires
        d.len() > 0,
        d.last().len() > 0,
    ensures
        join_text(d, "\n"@).len() > 0,
{
    if d.len() > 1 {
        assert(join_text(d, "\n"@) == join_text(d.drop_last(), "\n"@) + "\n"@ + d.last());
    }
}

/// Tidying twice is tidying once: pressing the button again changes nothing.
pub proof fn lemma_tidy_twice(s: Seq<char>)
    ensures
        tidied(tidied(s)) == tidied(s),
{
    let ps = split_nl(s);
    assert forall|t: int| 0 <= t < ps.len() implies crate::table::no_sep(#[trigger] ps[t], '\n') by {
        lemma_split_nl_piece_no_newline(s, t);
    }
    lemma_tidy_lines_form(ps, ps.len() as int);
    let d = drop_empty_tail(tidy_lines(ps, ps.len() as int).0);
    lemma_drop_empty_tail_form(tidy_lines(ps, ps.len() as int).0);
    assert(tidied(s) == tidy_text(d));
    lemma_tidy_text_fixed(d);
}

pub proof fn lemma_split_nl_piece_no_newline(s: Seq<char>, t: int)
    requires
        0 <= t < split_nl(s).len(),
    ensures
        crate::table::no_sep(split_nl(s)[t], '\n'),
{
    crate::hunks::lemma_split_nl_piece(s, t);
    let ps = split_nl(s);
    let start = crate::hunks::char_start(ps, t);
    assert forall|j: int| 0 <= j < ps[t].len() implies #[trigger] ps[t][j] != '\n' by {
        lemma_split_nl_pieces_plain(s, t, j);
    }
}

proof fn lemma_split_nl_pieces_plain(s: Seq<char>, t: int, j: int)
    requires
        0 <= t < split_nl(s).len(),
        0 <= j < split_nl(s)[t].len(),
    ensures
        split_nl(s)[t][j] != '\n',
    decreases s.len(),
{
    if s.len() > 0 {
        let d = s.drop_last();
        let prev = split_nl(d);
        crate::text::lemma_split_nl_nonempty(d);
        if s.last() == '\n' {
            assert(split_nl(s) == prev.push(seq![]));
            lemma_split_nl_pieces_plain(d, t, j);
        } else {
            assert(split_nl(s) == prev.update(prev.len() - 1, prev.last().push(s.last())));
            if t < prev.len() - 1 {
                lemma_split_nl_pieces_plain(d, t, j);
            } else if j < prev.last().len() {
                lemma_split_nl_pieces_plain(d, t, j);
            }
        }
    }
}

// ---------------------------------------------------------------------------
// Laws of the format buttons.

pub proof fn lemma_trim_start_idem(s: Seq<char>)
    ensures
        trim_start(trim_start(s)) == trim_start(s),
        trim_start(s).len() > 0 ==> !is_ws(trim_start(s)[0]),
    decreases s.len(),
{
    if s.len() > 0 && is_ws(s[0]) {
        lemma_trim_start_idem(s.drop_first());
    }
}

proof fn lemma_trim_start_plain(s: Seq<char>)
    requires
        s.len() > 0,
        !is_ws(s[0]),
    ensures
        trim_start(s) == s,
{
}

/// The heading buttons replace the level instead of stacking marks: setting
/// a level on a line that was just made a heading gives what setting it on
/// the original line gives. (Making a line body text first, level 0, is left
/// out when its text itself starts with `#`: that `#` is then read as a mark.)
pub proof fn lemma_heading_replaces_level(line: Seq<char>, first: nat, second: nat)
    requires
        first >= 1 || !(heading_body(line).len() > 0 && heading_body(line)[0] == '#'),
    ensures
        with_heading(with_heading(line, first), second) == with_heading(line, second),
{
    let b = heading_body(line);
    let t0 = trim_start(line);
    lemma_run_of(t0, '#');
    lemma_trim_start_idem(t0.skip(run_of(t0, '#') as int));
    let m = with_heading(line, first);
    if first >= 1 {
        let hs = Seq::new(first, |k: int| '#');
        assert(m == hs + seq![' '] + b);
        assert(m[0] == '#');
        lemma_trim_start_plain(m);
        assert(trim_start(m) == m);
        lemma_run_of(m, '#');
        assert(run_of(m, '#') == first) by {
            lemma_run_exact(m, '#', first as int);
        }
        assert(m.skip(first as int) =~= seq![' '] + b);
        assert(trim_start(seq![' '] + b) == trim_start((seq![' '] + b).drop_first()));
        assert((seq![' '] + b).drop_first() =~= b);
        assert(heading_body(m) == b);
    } else {
        assert(m == b);
        if b.len() > 0 {
            lemma_trim_start_plain(b);
            assert(run_of(b, '#') == 0);
            assert(b.skip(0) =~= b);
        } else {
            assert(b.skip(0) =~= b);
        }
        assert(heading_body(m) == b);
    }
}

proof fn lemma_run_exact(s: Seq<char>, c: char, k: int)
    requires
        0 <= k <= s.len(),
        forall|x: int| 0 <= x < k ==> #[trigger] s[x] == c,
        k < s.len() ==> s[k] != c,
    ensures
        run_of(s, c) == k,
    decreases k,
{
    if k > 0 {
        assert forall|x: int| 0 <= x < k - 1 implies #[trigger] s.drop_first()[x] == c by {
            assert(s.drop_first()[x] == s[x + 1]);
        }
        if k - 1 < s.drop_first().len() {
            assert(s.drop_first()[k - 1] == s[k]);
        }
        lemma_run_exact(s.drop_first(), c, k - 1);
    }
}

/// Whether the text of a line, indentation aside, is a bullet item.
pub open spec fn is_bullet(line: Seq<char>) -> bool {
    let body = trim_start(line);
    body.len() >= 2 && (body[0] == '-' || body[0] == '*') && body[1] == ' '
}

/// The bullet button is a switch: pressed twice on a line that is not a
/// bullet item, it gives back the line (its indentation aside).
pub proof fn lemma_bullet_twice(line: Seq<char>)
    requires
        !is_bullet(line),
    ensures
        bullet_toggled(bullet_toggled(line)) == trim_start(line),
        !is_bullet(bullet_toggled(bullet_toggled(line))),
{
    let body = trim_start(line);
    lemma_trim_start_idem(line);
    if body.len() == 0 {
        assert(trim_start(body) == body);
    } else {
        let once = seq!['-', ' '] + body;
        assert(bullet_toggled(line) == once);
        lemma_trim_start_plain(once);
        assert(once.skip(2) =~= body);
        assert(bullet_toggled(once) == body);
    }
}

/// The bold button is a switch: making a plain selection bold and pressing
/// again on the selection it returns gives back the text and the selection.
pub proof fn lemma_bold_twice(s: Seq<char>, a: int, b: int)
    requires
        0 <= a <= b <= s.len(),
        ({
            let sel = s.subrange(a, b);
            !(sel.len() >= 4 && sel[0] == '*' && sel[1] == '*' && sel[sel.len() - 2] == '*' && sel[sel.len() - 1] == '*')
        }),
        !(a >= 2 && s[a - 2] == '*' && s[a - 1] == '*' && b + 2 <= s.len() && s[b] == '*' && s[b + 1] == '*'),
    ensures
        ({
            let m = bold_toggled(s, a, b);
            bold_toggled(m.0, m.1, m.2) == (s, a, b)
        }),
{
    let sel = s.subrange(a, b);
    let m = bold_toggled(s, a, b);
    let t = s.take(a) + seq!['*', '*'] + sel + seq!['*', '*'] + s.skip(b);
    assert(m == (t, a + 2, b + 2));
    assert(t.subrange(a + 2, b + 2) =~= sel);
    assert(t[a] == '*' && t[a + 1] == '*');
    assert(t[b + 2] == '*' && t[b + 3] == '*');
    assert(t.take(a) =~= s.take(a));
    assert(t.skip(b + 4) =~= s.skip(b));
    assert(s.take(a) + sel + s.skip(b) =~= s);
}

} // verus!
