//! Centred and right-aligned regions of the Markdown source: a marker line
//! (an HTML comment) above a run of lines sets them apart until the next
//! blank line; the format ribbon adds, switches and removes such markers.

use crate::diff_editor::ranges_model;
use crate::hunks::{char_start, lemma_char_start_le, lemma_split_nl_piece, lemma_split_nl_total, line_starts};
use crate::markdown::{first_line_ending_after, line_at_byte, line_ranges, line_ranges_model};
use crate::text::{
    byte_len, chars_of, copy_range, has_prefix_at, lemma_split_nl_nonempty, prefix_bytes, split_nl,
    starts_with, str_bytes_fit, string_of, strip_cr, trim, trim_bounds,
};
use std::ops::Range;
use vstd::prelude::*;

verus! {

/// How the lines of a region are set.
#[derive(Clone, Copy, Debug, PartialEq, Eq, Structural)]
pub enum LineAlign {
    Center,
    Right,
}

/// What an alignment button did, for the status bar.
#[derive(Clone, Copy, Debug, PartialEq, Eq, Structural)]
pub enum AlignEdit {
    Added,
    Switched,
    Removed,
}

/// The marker line that opens a region of the given alignment.
pub open spec fn marker_of(align: LineAlign) -> Seq<char> {
    match align {
        LineAlign::Center => "<!-- [居中] -->"@,
        LineAlign::Right => "<!-- [居右] -->"@,
    }
}

/// The alignment a (trimmed) line opens, if it is a marker.
pub open spec fn marker_align(t: Seq<char>) -> Option<LineAlign> {
    if t == marker_of(LineAlign::Center) {
        Some(LineAlign::Center)
    } else if t == marker_of(LineAlign::Right) {
        Some(LineAlign::Right)
    } else {
        None
    }
}

/// How the marker of a region is written in the source.
pub fn align_marker(align: LineAlign) -> (r: &'static str)
    ensures
        r@ == marker_of(align),
{
    match align {
        LineAlign::Center => "<!-- [居中] -->",
        LineAlign::Right => "<!-- [居右] -->",
    }
}

/// The text of line `k` of `s`: its piece, a trailing `'\r'` left out.
pub open spec fn line_text(s: Seq<char>, k: int) -> Seq<char> {
    strip_cr(split_nl(s)[k])
}

/// Character bounds of the text of line `k` of `s`.
pub open spec fn line_span(s: Seq<char>, k: int) -> (int, int) {
    let ps = split_nl(s);
    (char_start(ps, k), char_start(ps, k) + strip_cr(ps[k]).len())
}

/// The marker governing line `i`: going up from `i`, the first marker met
/// before a blank line, with its line number.
pub open spec fn governing_from(s: Seq<char>, i: int) -> Option<(nat, LineAlign)>
    decreases i + 1,
{
    if i < 0 {
        None
    } else {
        let t = trim(line_text(s, i));
        if t.len() == 0 {
            None
        } else {
            match marker_align(t) {
                Some(a) => Some((i as nat, a)),
                None => governing_from(s, i - 1),
            }
        }
    }
}

/// The marker governing line `line` of `s` (past the end, the last line).
pub open spec fn governing_marker(s: Seq<char>, line: int) -> Option<(nat, LineAlign)> {
    let n = split_nl(s).len() as int;
    governing_from(s, if line < n - 1 { line } else { n - 1 })
}

proof fn lemma_governing_from_bound(s: Seq<char>, i: int)
    ensures
        governing_from(s, i) matches Some((j, a)) ==> 0 <= j <= i && marker_align(trim(line_text(s, j as int))) == Some(a),
    decreases i + 1,
{
    if i >= 0 {
        lemma_governing_from_bound(s, i - 1);
    }
}

/// Character bounds of line `k`, the start of the next line given by
/// `starts`.
fn line_bounds(v: &Vec<char>, starts: &Vec<usize>, k: usize) -> (r: (usize, usize))
    requires
        starts.len() == split_nl(v@).len(),
        forall|j: int| 0 <= j < starts.len() ==> #[trigger] starts@[j] == char_start(split_nl(v@), j),
        k < starts.len(),
    ensures
        r.0 == line_span(v@, k as int).0,
        r.1 == line_span(v@, k as int).1,
        r.0 <= r.1 <= v.len(),
        v@.subrange(r.0 as int, r.1 as int) == line_text(v@, k as int),
{
    let ghost ps = split_nl(v@);
    proof {
        lemma_split_nl_piece(v@, k as int);
        lemma_split_nl_total(v@);
    }
    let ls = starts[k];
    let pe = if k + 1 < starts.len() {
        proof {
            assert(char_start(ps, k + 1) == char_start(ps, k as int) + ps[k as int].len() + 1);
        }
        starts[k + 1] - 1
    } else {
        v.len()
    };
    let le = if pe > ls && v[pe - 1] == '\r' {
        pe - 1
    } else {
        pe
    };
    proof {
        let p = ps[k as int];
        assert(v@.subrange(ls as int, pe as int) == p);
        if pe > ls {
            assert(p.last() == v@[pe - 1]);
        }
        assert(v@.subrange(ls as int, le as int) =~= strip_cr(p));
    }
    (ls, le)
}

/// Which marker, if any, `v[lo..hi]` is.
fn marker_at(v: &Vec<char>, lo: usize, hi: usize, center: &Vec<char>, right: &Vec<char>) -> (r: Option<LineAlign>)
    requires
        lo <= hi <= v.len(),
        center@ == marker_of(LineAlign::Center),
        right@ == marker_of(LineAlign::Right),
    ensures
        r == marker_align(v@.subrange(lo as int, hi as int)),
{
    let ghost t = v@.subrange(lo as int, hi as int);
    proof {
        assert(t.take(t.len() as int) =~= t);
    }
    if hi - lo == center.len() && has_prefix_at(v, lo, hi, center.as_slice()) {
        Some(LineAlign::Center)
    } else if hi - lo == right.len() && has_prefix_at(v, lo, hi, right.as_slice()) {
        proof {
            if t == marker_of(LineAlign::Center) {
                assert(starts_with(t, center@));
            }
        }
        Some(LineAlign::Right)
    } else {
        proof {
            if t == marker_of(LineAlign::Center) {
                assert(starts_with(t, center@));
            }
            if t == marker_of(LineAlign::Right) {
                assert(starts_with(t, right@));
            }
        }
        None
    }
}

/// `governing_from` computed on the characters `v`, lines starting at
/// `starts`.
fn governing_in(v: &Vec<char>, starts: &Vec<usize>, line: usize, center: &Vec<char>, right: &Vec<char>) -> (r: Option<(usize, LineAlign)>)
    requires
        starts.len() == split_nl(v@).len(),
        forall|j: int| 0 <= j < starts.len() ==> #[trigger] starts@[j] == char_start(split_nl(v@), j),
        line < starts.len(),
        center@ == marker_of(LineAlign::Center),
        right@ == marker_of(LineAlign::Right),
    ensures
        match r {
            Some((i, a)) => governing_from(v@, line as int) == Some((i as nat, a)),
            None => governing_from(v@, line as int) is None,
        },
{
    let mut i: usize = line + 1;
    while i > 0
        invariant
            i <= line + 1,
            line < starts.len(),
            starts.len() == split_nl(v@).len(),
            forall|j: int| 0 <= j < starts.len() ==> #[trigger] starts@[j] == char_start(split_nl(v@), j),
            center@ == marker_of(LineAlign::Center),
            right@ == marker_of(LineAlign::Right),
            governing_from(v@, line as int) == governing_from(v@, i - 1),
        decreases i,
    {
        let k = i - 1;
        let (ls, le) = line_bounds(v, starts, k);
        let (a, b) = trim_bounds(v, ls, le);
        if a == b {
            return None;
        }
        match marker_at(v, a, b, center, right) {
            Some(al) => {
                return Some((k, al));
            },
            None => {},
        }
        i = k;
    }
    None
}

/// The marker governing line `line`: going up from it, the first marker met
/// before a blank line (it may be the line itself), with its line number.
pub fn governing_align_marker(text: &str, ranges: &[Range<usize>], line: usize) -> (r: Option<(usize, LineAlign)>)
    requires
        ranges_model(ranges@) == line_ranges_model(text@),
    ensures
        match r {
            Some((i, a)) => governing_marker(text@, line as int) == Some((i as nat, a)),
            None => governing_marker(text@, line as int) is None,
        },
{
    let v = chars_of(text);
    let starts = line_starts(&v);
    proof {
        lemma_split_nl_nonempty(text@);
        assert(ranges_model(ranges@).len() == ranges@.len());
    }
    let top = if line < ranges.len() - 1 {
        line
    } else {
        ranges.len() - 1
    };
    let center = chars_of(align_marker(LineAlign::Center));
    let right = chars_of(align_marker(LineAlign::Right));
    governing_in(&v, &starts, top, &center, &right)
}

/// The characters that removing the marker on line `i` of `s` takes out:
/// the line with its line break, or, on the last line, the line break
/// before it (a `'\r'` ending the text stays).
pub open spec fn removal_span(s: Seq<char>, i: int) -> (int, int) {
    let ps = split_nl(s);
    let (ls, le) = line_span(s, i);
    if i < ps.len() - 1 {
        (ls, char_start(ps, i + 1))
    } else if le < s.len() {
        (ls, le)
    } else {
        (if ls > 0 { ls - 1 } else { 0 }, le)
    }
}

/// `s` with the marker line `i` taken out (see `removal_span`).
pub open spec fn marker_removed(s: Seq<char>, i: int) -> Seq<char> {
    s.take(removal_span(s, i).0) + s.skip(removal_span(s, i).1)
}

/// Where the cursor goes once marker line `i` is taken out: the old end of
/// the selection's last line (byte `end_last`) moved back by what was taken
/// out, not before the place of the cut and not past the end.
pub open spec fn removal_caret(s: Seq<char>, i: int, end_last: int) -> int {
    let (ra, rb) = removal_span(s, i);
    let removed = byte_len(s.take(rb)) - byte_len(s.take(ra));
    let back = if end_last >= removed { end_last - removed } else { 0 };
    let at_least = if back >= byte_len(s.take(ra)) { back } else { byte_len(s.take(ra)) as int };
    let out_len = byte_len(marker_removed(s, i)) as int;
    if at_least <= out_len { at_least } else { out_len }
}

/// `s` with the text of line `i` replaced by `m`.
pub open spec fn marker_switched(s: Seq<char>, i: int, m: Seq<char>) -> Seq<char> {
    s.take(line_span(s, i).0) + m + s.skip(line_span(s, i).1)
}

/// `s` with the marker line `m` put above line `first`, and a blank line
/// below line `last` when the line after it has text.
pub open spec fn marker_added(s: Seq<char>, first: int, last: int, m: Seq<char>) -> Seq<char> {
    let fs = line_span(s, first).0;
    let le = line_span(s, last).1;
    let next_has_text = last + 1 < split_nl(s).len() && trim(line_text(s, last + 1)).len() > 0;
    s.take(fs) + m + seq!['\n'] + s.subrange(fs, le) + (if next_has_text {
        seq!['\n']
    } else {
        Seq::<char>::empty()
    }) + s.skip(le)
}

/// What the alignment button does to `s` when the selection starts on line
/// `first` and ends on line `last`: the new text, the byte position of the
/// cursor, and what was done.
///
/// - In a region of the same alignment: its marker line is removed.
/// - In a region of the other alignment: the marker is switched in place.
/// - Outside any region: a marker line goes above `first`, and a blank line
///   below `last` when the next line has text.
pub open spec fn align_toggled(s: Seq<char>, first: int, last: int, align: LineAlign) -> (Seq<char>, int, AlignEdit) {
    let rs = line_ranges_model(s);
    let m = marker_of(align);
    match governing_marker(s, first) {
        Some((i, current)) => {
            if current == align {
                (marker_removed(s, i as int), removal_caret(s, i as int, rs[last].1 as int), AlignEdit::Removed)
            } else {
                (
                    marker_switched(s, i as int, m),
                    rs[last].1 + byte_len(m) - (rs[i as int].1 - rs[i as int].0),
                    AlignEdit::Switched,
                )
            }
        },
        None => (marker_added(s, first, last, m), (rs[last].1 + byte_len(m) + 1) as int, AlignEdit::Added),
    }
}

/// The later of the two ends of a selection.
pub open spec fn later_end(start: usize, end: usize) -> nat {
    if end > start { end as nat } else { start as nat }
}

proof fn lemma_byte_len_le_four(s: Seq<char>)
    ensures
        byte_len(s) <= 4 * s.len(),
    decreases s.len(),
{
    if s.len() > 0 {
        lemma_byte_len_le_four(s.drop_last());
    }
}

/// A later byte position never falls on an earlier line.
proof fn lemma_line_at_byte_mono(rs: Seq<(nat, nat)>, b1: nat, b2: nat, f: int, l: int)
    requires
        b1 <= b2,
        first_line_ending_after(rs, b1, f),
        first_line_ending_after(rs, b2, l),
    ensures
        f <= l,
{
    if l < f {
        assert(b1 > rs[l].1);
    }
}

/// The line a byte position falls on is the only one meeting the
/// condition.
proof fn lemma_line_at_byte_unique(rs: Seq<(nat, nat)>, b: nat, f: int, g: int)
    requires
        first_line_ending_after(rs, b, f),
        first_line_ending_after(rs, b, g),
    ensures
        f == g,
{
    if f < g {
        assert(b > rs[f].1);
    } else if g < f {
        assert(b > rs[g].1);
    }
}

/// The byte range of line `k` in the character terms of `line_span`.
proof fn lemma_range_bytes(s: Seq<char>, k: int)
    requires
        0 <= k < split_nl(s).len(),
    ensures
        line_ranges_model(s)[k].0 == byte_len(s.take(line_span(s, k).0)),
        line_ranges_model(s)[k].1 == byte_len(s.take(line_span(s, k).1)),
        0 <= line_span(s, k).0 <= line_span(s, k).1 <= s.len(),
{
    let ps = split_nl(s);
    crate::hunks::lemma_piece_start_bytes(s, k);
    lemma_split_nl_piece(s, k);
    let (ls, le) = line_span(s, k);
    let p = ps[k];
    assert(s.subrange(ls, ls + p.len()) == p);
    assert(s.subrange(ls, le) =~= strip_cr(p));
    crate::text::lemma_byte_len_concat(s.take(ls), s.subrange(ls, le));
    assert(s.take(ls) + s.subrange(ls, le) =~= s.take(le));
}

/// Byte positions of line ends never go back.
proof fn lemma_range_ends_mono(s: Seq<char>, i: int, j: int)
    requires
        0 <= i <= j < split_nl(s).len(),
    ensures
        line_ranges_model(s)[i].1 <= line_ranges_model(s)[j].1,
        line_span(s, i).1 <= line_span(s, j).1,
        line_span(s, i).0 <= line_span(s, j).0,
{
    let ps = split_nl(s);
    lemma_range_bytes(s, i);
    lemma_range_bytes(s, j);
    if i < j {
        lemma_char_start_le(ps, i, j);
        assert(strip_cr(ps[i]).len() <= ps[i].len());
        assert(line_span(s, i).1 <= line_span(s, j).0);
        crate::text::lemma_byte_len_take_le(s.take(line_span(s, j).1), line_span(s, i).1);
        assert(s.take(line_span(s, j).1).take(line_span(s, i).1) =~= s.take(line_span(s, i).1));
    }
}

/// Take marker line `i` out of `v`; gives the new characters and the cursor
/// for a selection whose last line ended at byte `end_last`.
fn remove_marker_line(v: &Vec<char>, starts: &Vec<usize>, i: usize, end_last: usize) -> (r: (Vec<char>, usize))
    requires
        starts.len() == split_nl(v@).len(),
        forall|j: int| 0 <= j < starts.len() ==> #[trigger] starts@[j] == char_start(split_nl(v@), j),
        i < starts.len(),
        byte_len(v@) <= usize::MAX,
    ensures
        r.0@ == marker_removed(v@, i as int),
        r.1 == removal_caret(v@, i as int, end_last as int),
{
    let ghost s = v@;
    let n = starts.len();
    let (ls, le) = line_bounds(v, starts, i);
    proof {
        lemma_split_nl_total(s);
        lemma_split_nl_piece(s, i as int);
    }
    let (ra, rb) = if i + 1 < n {
        (ls, starts[i + 1])
    } else if le < v.len() {
        (ls, le)
    } else {
        (if ls > 0 {
            ls - 1
        } else {
            0
        }, le)
    };
    proof {
        assert(ra as int == removal_span(s, i as int).0 && rb as int == removal_span(s, i as int).1);
        crate::text::lemma_byte_len_take_le(s, rb as int);
        crate::text::lemma_byte_len_take_le(s.take(rb as int), ra as int);
        assert(s.take(rb as int).take(ra as int) =~= s.take(ra as int));
        crate::text::lemma_byte_len_concat(s.take(rb as int), s.skip(rb as int));
        assert(s.take(rb as int) + s.skip(rb as int) =~= s);
        crate::text::lemma_byte_len_concat(s.take(ra as int), s.skip(rb as int));
        assert(s.take(v.len() as int) =~= s);
    }
    let total = prefix_bytes(v, v.len());
    let ba = prefix_bytes(v, ra);
    let bb = prefix_bytes(v, rb);
    let removed = bb - ba;
    let mut out = copy_range(v, 0, ra);
    let mut tail = copy_range(v, rb, v.len());
    out.append(&mut tail);
    proof {
        assert(v@.subrange(0, ra as int) =~= s.take(ra as int));
        assert(v@.subrange(rb as int, v.len() as int) =~= s.skip(rb as int));
        assert(out@ == marker_removed(s, i as int));
    }
    let out_len = total - removed;
    let back = if end_last >= removed {
        end_last - removed
    } else {
        0
    };
    let at_least = if back >= ba {
        back
    } else {
        ba
    };
    let caret = if at_least <= out_len {
        at_least
    } else {
        out_len
    };
    (out, caret)
}

/// Replace the text of line `i` of `v` by `m`.
fn switch_marker_line(v: &Vec<char>, starts: &Vec<usize>, i: usize, m: &Vec<char>) -> (r: Vec<char>)
    requires
        starts.len() == split_nl(v@).len(),
        forall|j: int| 0 <= j < starts.len() ==> #[trigger] starts@[j] == char_start(split_nl(v@), j),
        i < starts.len(),
    ensures
        r@ == marker_switched(v@, i as int, m@),
{
    let (ls, le) = line_bounds(v, starts, i);
    let mut out = copy_range(v, 0, ls);
    let mut mid = copy_range(m, 0, m.len());
    out.append(&mut mid);
    let mut tail = copy_range(v, le, v.len());
    out.append(&mut tail);
    proof {
        assert(v@.subrange(0, ls as int) =~= v@.take(ls as int));
        assert(m@.subrange(0, m.len() as int) =~= m@);
        assert(v@.subrange(le as int, v.len() as int) =~= v@.skip(le as int));
    }
    out
}

/// Put the marker line `m` above line `first` of `v`, and a blank line below
/// line `last` when the line after it has text.
fn add_marker_lines(v: &Vec<char>, starts: &Vec<usize>, first: usize, last: usize, m: &Vec<char>) -> (r: Vec<char>)
    requires
        starts.len() == split_nl(v@).len(),
        forall|j: int| 0 <= j < starts.len() ==> #[trigger] starts@[j] == char_start(split_nl(v@), j),
        first <= last < starts.len(),
    ensures
        r@ == marker_added(v@, first as int, last as int, m@),
{
    proof {
        lemma_range_ends_mono(v@, first as int, last as int);
    }
    let (fs, _fe) = line_bounds(v, starts, first);
    let (_ls, le) = line_bounds(v, starts, last);
    let next_has_text = if last + 1 < starts.len() {
        let (a2, b2) = line_bounds(v, starts, last + 1);
        let (x, y) = trim_bounds(v, a2, b2);
        x < y
    } else {
        false
    };
    let mut out = copy_range(v, 0, fs);
    let mut mid = copy_range(m, 0, m.len());
    out.append(&mut mid);
    out.push('\n');
    let mut body = copy_range(v, fs, le);
    out.append(&mut body);
    if next_has_text {
        out.push('\n');
    }
    let mut tail = copy_range(v, le, v.len());
    out.append(&mut tail);
    proof {
        assert(v@.subrange(0, fs as int) =~= v@.take(fs as int));
        assert(m@.subrange(0, m.len() as int) =~= m@);
        assert(v@.subrange(le as int, v.len() as int) =~= v@.skip(le as int));
        assert(out@ =~= marker_added(v@, first as int, last as int, m@));
    }
    out
}

/// Set the lines that the selection covers apart as centred or right-aligned
/// text; pressing the same alignment again inside such a region takes its
/// marker away. Returns the new text, the byte position for the cursor, and
/// what was done.
#[verifier::spinoff_prover]
#[verifier::rlimit(30)]
pub fn toggle_align_region(text: &str, selection: &Range<usize>, align: LineAlign) -> (r: (String, usize, AlignEdit))
    requires
        byte_len(text@) + 64 <= usize::MAX,
    ensures
        forall|f: int, l: int|
            #![trigger first_line_ending_after(line_ranges_model(text@), selection.start as nat, f), first_line_ending_after(line_ranges_model(text@), later_end(selection.start, selection.end), l)]
            first_line_ending_after(line_ranges_model(text@), selection.start as nat, f)
                && first_line_ending_after(line_ranges_model(text@), later_end(selection.start, selection.end), l)
                ==> ({
                    let t = align_toggled(text@, f, l, align);
                    &&& r.0@ == t.0
                    &&& r.1 == t.1
                    &&& r.2 == t.2
                }),
{
    let ghost s = text@;
    let ghost rs = line_ranges_model(s);
    let ranges = line_ranges(text);
    proof {
        lemma_split_nl_nonempty(s);
        assert(ranges_model(ranges@).len() == ranges@.len());
    }
    let first = line_at_byte(ranges.as_slice(), selection.start);
    let hi = if selection.end > selection.start {
        selection.end
    } else {
        selection.start
    };
    let last = line_at_byte(ranges.as_slice(), hi);
    proof {
        lemma_line_at_byte_mono(rs, selection.start as nat, hi as nat, first as int, last as int);
        assert forall|f: int, l: int|
            first_line_ending_after(rs, selection.start as nat, f) && first_line_ending_after(rs, hi as nat, l)
            implies f == first && l == last by {
            lemma_line_at_byte_unique(rs, selection.start as nat, f, first as int);
            lemma_line_at_byte_unique(rs, hi as nat, l, last as int);
        }
        assert(rs[last as int].1 == ranges@[last as int].end);
        lemma_range_bytes(s, last as int);
        crate::text::lemma_byte_len_take_le(s, line_span(s, last as int).1);
    }
    let v = chars_of(text);
    let starts = line_starts(&v);
    let center = chars_of(align_marker(LineAlign::Center));
    let right = chars_of(align_marker(LineAlign::Right));
    let mc = chars_of(align_marker(align));
    proof {
        reveal_strlit("<!-- [居中] -->");
        reveal_strlit("<!-- [居右] -->");
        lemma_byte_len_le_four(mc@);
        assert(mc@.take(mc.len() as int) =~= mc@);
    }
    let mb = prefix_bytes(&mc, mc.len());
    let n = starts.len();
    let top = if first < n - 1 {
        first
    } else {
        n - 1
    };
    match governing_in(&v, &starts, top, &center, &right) {
        Some((i, current)) => {
            proof {
                lemma_governing_from_bound(s, top as int);
                lemma_range_ends_mono(s, i as int, last as int);
                lemma_range_bytes(s, i as int);
                assert(rs[i as int].1 == ranges@[i as int].end && rs[i as int].0 == ranges@[i as int].start);
            }
            if current == align {
                let (out, caret) = remove_marker_line(&v, &starts, i, ranges[last].end);
                (string_of(&out), caret, AlignEdit::Removed)
            } else {
                let out = switch_marker_line(&v, &starts, i, &mc);
                let caret = ranges[last].end + mb - (ranges[i].end - ranges[i].start);
                (string_of(&out), caret, AlignEdit::Switched)
            }
        },
        None => {
            let out = add_marker_lines(&v, &starts, first, last, &mc);
            let caret = ranges[last].end + mb + 1;
            (string_of(&out), caret, AlignEdit::Added)
        },
    }
}

// ---------------------------------------------------------------------------
// Pressing the same alignment twice.

/// Cutting at a line break cuts the lines.
proof fn lemma_split_nl_concat(a: Seq<char>, b: Seq<char>)
    ensures
        split_nl(a + seq!['\n'] + b) == split_nl(a) + split_nl(b),
    decreases b.len(),
{
    let x = a + seq!['\n'] + b;
    if b.len() == 0 {
        assert(x.drop_last() =~= a);
        assert(split_nl(b) =~= seq![Seq::<char>::empty()]);
        assert(split_nl(x) =~= split_nl(a) + split_nl(b));
    } else {
        lemma_split_nl_concat(a, b.drop_last());
        assert(x.drop_last() =~= a + seq!['\n'] + b.drop_last());
        lemma_split_nl_nonempty(b.drop_last());
        let pa = split_nl(a);
        let pb = split_nl(b.drop_last());
        if b.last() == '\n' {
            assert(split_nl(x) =~= pa + pb.push(seq![]));
        } else {
            assert((pa + pb).last() == pb.last());
            assert(split_nl(x) =~= pa + pb.update(pb.len() - 1, pb.last().push(b.last())));
        }
    }
}

/// Text without a line break is one line.
proof fn lemma_split_nl_plain(x: Seq<char>)
    requires
        crate::table::no_sep(x, '\n'),
    ensures
        split_nl(x) == seq![x],
    decreases x.len(),
{
    if x.len() > 0 {
        let d = x.drop_last();
        assert(crate::table::no_sep(d, '\n')) by {
            assert forall|k: int| 0 <= k < d.len() implies #[trigger] d[k] != '\n' by {
                assert(d[k] == x[k]);
            }
        }
        lemma_split_nl_plain(d);
        assert(x[x.len() - 1] != '\n');
        assert(d.push(x.last()) =~= x);
        assert(seq![d].update(0, d.push(x.last())) =~= seq![x]);
    } else {
        assert(x =~= Seq::<char>::empty());
    }
}

/// The lines of `s` before line `k` and from line `k` on.
proof fn lemma_split_at_line(s: Seq<char>, k: int)
    requires
        0 < k < split_nl(s).len(),
    ensures
        char_start(split_nl(s), k) >= 1,
        s[char_start(split_nl(s), k) - 1] == '\n',
        s =~= s.take(char_start(split_nl(s), k) - 1) + seq!['\n'] + s.skip(char_start(split_nl(s), k)),
        split_nl(s.take(char_start(split_nl(s), k) - 1)) == split_nl(s).take(k),
        split_nl(s.skip(char_start(split_nl(s), k))) == split_nl(s).skip(k),
{
    let ps = split_nl(s);
    let c = char_start(ps, k);
    lemma_split_nl_piece(s, k - 1);
    lemma_split_nl_piece(s, k);
    assert(c == char_start(ps, k - 1) + ps[k - 1].len() + 1);
    let a = s.take(c - 1);
    let b = s.skip(c);
    assert(s =~= a + seq!['\n'] + b);
    lemma_split_nl_concat(a, b);
    let pa = split_nl(a);
    let pb = split_nl(b);
    lemma_split_nl_nonempty(a);
    lemma_split_nl_nonempty(b);
    lemma_split_nl_total(a);
    crate::hunks::lemma_char_start_prefix(pa, ps, pa.len() as int);
    crate::hunks::lemma_char_start_prefix(pa, ps, pa.len() - 1);
    assert(char_start(ps, pa.len() as int) == c);
    if pa.len() < k {
        lemma_char_start_le(ps, pa.len() as int, k);
    } else if pa.len() > k {
        lemma_char_start_le(ps, k, pa.len() as int);
    }
    assert(pa =~= ps.take(k));
    assert(pb =~= ps.skip(k));
}

/// A trailing whitespace character, such as a `'\r'`, changes nothing
/// trimming keeps.
proof fn lemma_trim_drop_ws_last(t: Seq<char>)
    requires
        t.len() > 0,
        crate::text::is_ws(t.last()),
    ensures
        trim(t) == trim(t.drop_last()),
    decreases t.len(),
{
    if crate::text::is_ws(t[0]) {
        if t.len() == 1 {
            assert(t.drop_first() =~= Seq::<char>::empty());
            assert(t.drop_last() =~= Seq::<char>::empty());
        } else {
            lemma_trim_drop_ws_last(t.drop_first());
            assert(t.drop_last().drop_first() =~= t.drop_first().drop_last());
            assert(t.drop_last()[0] == t[0]);
        }
    } else {
        assert(t.drop_last()[0] == t[0]);
        assert(crate::text::trim_start(t) == t);
        assert(crate::text::trim_start(t.drop_last()) == t.drop_last());
    }
}

proof fn lemma_line_span_text(s: Seq<char>, k: int)
    requires
        0 <= k < split_nl(s).len(),
    ensures
        s.subrange(line_span(s, k).0, line_span(s, k).1) == line_text(s, k),
        crate::table::no_sep(line_text(s, k), '\n'),
        crate::table::no_sep(split_nl(s)[k], '\n'),
{
    let ps = split_nl(s);
    lemma_split_nl_piece(s, k);
    let (ls, le) = line_span(s, k);
    assert(s.subrange(ls, ls + ps[k].len()) == ps[k]);
    assert(s.subrange(ls, le) =~= strip_cr(ps[k]));
    crate::markdown::lemma_split_nl_piece_no_newline(s, k);
    assert forall|j: int| 0 <= j < line_text(s, k).len() implies #[trigger] line_text(s, k)[j] != '\n' by {
        assert(line_text(s, k)[j] == ps[k][j]);
    }
}

/// What follows the new marker line after `first`..`last` were set apart:
/// the lines themselves, the closing blank line if one was added, the rest.
pub open spec fn after_marker(s: Seq<char>, first: int, last: int) -> Seq<char> {
    let fs = line_span(s, first).0;
    let le = line_span(s, last).1;
    let closing = last + 1 < split_nl(s).len() && trim(line_text(s, last + 1)).len() > 0;
    s.subrange(fs, le) + (if closing {
        seq!['\n']
    } else {
        Seq::<char>::empty()
    }) + s.skip(le)
}

/// The first line after the new marker is the first selected line (its
/// `'\r'` perhaps gone, which trimming does not see).
#[verifier::spinoff_prover]
proof fn lemma_after_marker_head(s: Seq<char>, first: int, last: int)
    requires
        0 <= first <= last < split_nl(s).len(),
    ensures
        split_nl(after_marker(s, first, last)).len() >= 1,
        trim(strip_cr(split_nl(after_marker(s, first, last))[0])) == trim(line_text(s, first)),
{
    let ps = split_nl(s);
    let n = ps.len() as int;
    let fs = line_span(s, first).0;
    let le = line_span(s, last).1;
    let closing = last + 1 < n && trim(line_text(s, last + 1)).len() > 0;
    let opt = if closing { seq!['\n'] } else { Seq::<char>::empty() };
    let y = after_marker(s, first, last);
    lemma_range_bytes(s, first);
    lemma_range_bytes(s, last);
    lemma_range_ends_mono(s, first, last);
    lemma_split_nl_piece(s, first);
    lemma_line_span_text(s, first);
    let pf = ps[first];
    let head = if first < last {
        pf
    } else if closing {
        strip_cr(pf)
    } else {
        pf
    };
    assert(trim(strip_cr(head)) == trim(line_text(s, first))) by {
        if head != pf && strip_cr(pf).len() > 0 && strip_cr(pf).last() == '\r' {
            lemma_trim_drop_ws_last(strip_cr(pf));
        }
    }
    assert(split_nl(y).len() >= 1 && split_nl(y)[0] == head) by {
        if first < last {
            lemma_split_nl_piece(s, last);
            lemma_char_start_le(ps, first, last);
            let q = fs + pf.len();
            assert(s[q] == '\n');
            let rest = s.subrange(q + 1, le) + opt + s.skip(le);
            assert(s.subrange(fs, q) == pf);
            assert(y =~= pf + seq!['\n'] + rest);
            lemma_split_nl_concat(pf, rest);
            lemma_split_nl_plain(pf);
            lemma_split_nl_nonempty(rest);
        } else if closing {
            assert(y =~= line_text(s, first) + seq!['\n'] + s.skip(le));
            lemma_split_nl_concat(line_text(s, first), s.skip(le));
            lemma_split_nl_plain(line_text(s, first));
            lemma_split_nl_nonempty(s.skip(le));
        } else {
            assert(y =~= s.skip(fs));
            if first > 0 {
                lemma_split_at_line(s, first);
            } else {
                assert(s.skip(0) =~= s);
            }
            lemma_split_nl_nonempty(s);
        }
    }
}

/// The lines of the text after a marker went in: those before it, the
/// marker, then what follows it, whose first line trims as the first
/// selected line did.
#[verifier::spinoff_prover]
proof fn lemma_added_lines(s: Seq<char>, first: int, last: int, m: Seq<char>)
    requires
        0 <= first <= last < split_nl(s).len(),
        crate::table::no_sep(m, '\n'),
    ensures
        marker_added(s, first, last, m) == s.take(line_span(s, first).0) + m + seq!['\n'] + after_marker(s, first, last),
        split_nl(marker_added(s, first, last, m)) == split_nl(s).take(first) + seq![m] + split_nl(after_marker(s, first, last)),
        split_nl(after_marker(s, first, last)).len() >= 1,
        trim(strip_cr(split_nl(after_marker(s, first, last))[0])) == trim(line_text(s, first)),
        0 <= line_span(s, first).0 <= line_span(s, last).1 <= s.len(),
{
    let ps = split_nl(s);
    let fs = line_span(s, first).0;
    let y = after_marker(s, first, last);
    let out = marker_added(s, first, last, m);
    lemma_range_bytes(s, first);
    lemma_range_bytes(s, last);
    lemma_range_ends_mono(s, first, last);
    lemma_split_nl_plain(m);
    assert(out =~= s.take(fs) + m + seq!['\n'] + y);
    lemma_after_marker_head(s, first, last);
    lemma_split_nl_concat(m, y);
    if first > 0 {
        lemma_split_at_line(s, first);
        assert(out =~= s.take(fs - 1) + seq!['\n'] + (m + seq!['\n'] + y));
        lemma_split_nl_concat(s.take(fs - 1), m + seq!['\n'] + y);
        assert(split_nl(out) =~= ps.take(first) + seq![m] + split_nl(y));
    } else {
        assert(out =~= m + seq!['\n'] + y);
        assert(split_nl(out) =~= ps.take(first) + seq![m] + split_nl(y));
    }
}

/// A marker line trims to itself and opens a region of its alignment.
proof fn lemma_marker_line(align: LineAlign)
    ensures
        crate::table::no_sep(marker_of(align), '\n'),
        strip_cr(marker_of(align)) == marker_of(align),
        trim(marker_of(align)) == marker_of(align),
        marker_align(marker_of(align)) == Some(align),
        marker_of(align).len() > 0,
{
    reveal_strlit("<!-- [居中] -->");
    reveal_strlit("<!-- [居右] -->");
    let m = marker_of(align);
    assert(m[0] == '<' && m.last() == '>');
    assert(crate::text::trim_start(m) == m);
    assert(crate::text::trim_end(m) == m);
    assert(marker_of(LineAlign::Center)[7] != marker_of(LineAlign::Right)[7]);
}

/// Pressing the same alignment again takes the region away: after a press
/// that set lines apart, the first of them having text, the new marker
/// governs the line below it (where the first line now stands), and
/// pressing the same alignment there removes the marker, giving back the
/// text with only the blank line that closed the region.
#[verifier::spinoff_prover]
#[verifier::rlimit(30)]
pub proof fn lemma_align_again_removes(s: Seq<char>, first: int, last: int, later: int, align: LineAlign)
    requires
        0 <= first <= last < split_nl(s).len(),
        align_toggled(s, first, last, align).2 == AlignEdit::Added,
        trim(line_text(s, first)).len() > 0,
    ensures
        ({
            let out = align_toggled(s, first, last, align).0;
            let le = line_span(s, last).1;
            let closing = last + 1 < split_nl(s).len() && trim(line_text(s, last + 1)).len() > 0;
            let again = align_toggled(out, first + 1, later, align);
            &&& again.2 == AlignEdit::Removed
            &&& again.0 == s.take(le) + (if closing { seq!['\n'] } else { Seq::<char>::empty() }) + s.skip(le)
        }),
{
    let ps = split_nl(s);
    let m = marker_of(align);
    lemma_marker_line(align);
    lemma_added_lines(s, first, last, m);
    let out = marker_added(s, first, last, m);
    assert(align_toggled(s, first, last, align).0 == out);
    let fs = line_span(s, first).0;
    let y = after_marker(s, first, last);
    let po = split_nl(out);
    assert(po[first] == m);
    assert(po[first + 1] == split_nl(y)[0]);
    crate::hunks::lemma_char_start_prefix(ps, po, first);
    assert(char_start(po, first) == fs);
    assert(char_start(po, first + 1) == fs + m.len() + 1);
    assert(line_text(out, first) == m);
    assert(po.len() >= first + 2);
    assert(trim(line_text(out, first)) == m && m.len() > 0);
    assert(governing_from(out, first) == Some((first as nat, align)));
    assert(governing_from(s, first) is None);
    assert(marker_align(trim(line_text(s, first))) is None);
    assert(governing_from(out, first + 1) == governing_from(out, first));
    assert(governing_marker(out, first + 1) == Some((first as nat, align)));
    assert(removal_span(out, first) == (fs, fs + m.len() + 1));
    assert(out.take(fs) =~= s.take(fs));
    assert(out.skip(fs + m.len() + 1) =~= y);
    assert(marker_removed(out, first) =~= s.take(fs) + y);
}

} // verus!
