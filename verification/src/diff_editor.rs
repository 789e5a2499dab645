//! Positions the editable unified view needs: where the marked pieces of a
//! line lie, counted in bytes for the layout and in characters for the
//! cursor, and where each source line starts.

use crate::diff::{spans_model, spans_text, InlineSpan, SpanKind, SpanModel};
use crate::hunks::{char_start, line_starts};
use crate::text::{
    byte_len, chars_of, lemma_byte_len_concat, lemma_byte_len_take_le, prefix_bytes, split_nl,
    str_bytes_fit,
};
use std::ops::Range;
use vstd::prelude::*;

verus! {

/// Byte ranges, within the whole line, of the pieces of kind `kind`.
pub open spec fn kind_byte_ranges(sp: Seq<SpanModel>, kind: SpanKind) -> Seq<(nat, nat)>
    decreases sp.len(),
{
    if sp.len() == 0 {
        seq![]
    } else {
        let prev = kind_byte_ranges(sp.drop_last(), kind);
        let start = byte_len(spans_text(sp.drop_last()));
        if sp.last().0 == kind {
            prev.push((start, start + byte_len(sp.last().1)))
        } else {
            prev
        }
    }
}

/// Character ranges, within the whole line, of the pieces of kind `kind`.
pub open spec fn kind_char_ranges(sp: Seq<SpanModel>, kind: SpanKind) -> Seq<(nat, nat)>
    decreases sp.len(),
{
    if sp.len() == 0 {
        seq![]
    } else {
        let prev = kind_char_ranges(sp.drop_last(), kind);
        let start = spans_text(sp.drop_last()).len();
        if sp.last().0 == kind {
            prev.push((start, start + sp.last().1.len()))
        } else {
            prev
        }
    }
}

pub open spec fn ranges_model(v: Seq<Range<usize>>) -> Seq<(nat, nat)> {
    v.map_values(|r: Range<usize>| (r.start as nat, r.end as nat))
}

proof fn lemma_spans_text_take(sp: Seq<SpanModel>, k: int)
    requires
        0 <= k < sp.len(),
    ensures
        spans_text(sp.take(k + 1)) == spans_text(sp.take(k)) + sp[k].1,
        sp.take(k + 1).drop_last() == sp.take(k),
        sp.take(k + 1).last() == sp[k],
{
    assert(sp.take(k + 1).drop_last() =~= sp.take(k));
}

proof fn lemma_spans_text_prefix_bytes(sp: Seq<SpanModel>, k: int)
    requires
        0 <= k <= sp.len(),
    ensures
        byte_len(spans_text(sp.take(k))) <= byte_len(spans_text(sp)),
        spans_text(sp.take(k)).len() <= spans_text(sp).len(),
    decreases sp.len() - k,
{
    if k < sp.len() {
        lemma_spans_text_prefix_bytes(sp, k + 1);
        lemma_spans_text_take(sp, k);
        lemma_byte_len_concat(spans_text(sp.take(k)), sp[k].1);
    } else {
        assert(sp.take(k) =~= sp);
    }
}

/// Byte ranges of the pieces of one kind within the line they make up.
pub fn span_byte_ranges(spans: &[InlineSpan], kind: SpanKind) -> (r: Vec<Range<usize>>)
    requires
        byte_len(spans_text(spans_model(spans@))) <= usize::MAX,
    ensures
        ranges_model(r@) == kind_byte_ranges(spans_model(spans@), kind),
{
    let ghost sp = spans_model(spans@);
    let mut offset: usize = 0;
    let mut out: Vec<Range<usize>> = Vec::new();
    let mut k: usize = 0;
    assert(sp.take(0) =~= Seq::<SpanModel>::empty());
    while k < spans.len()
        invariant
            sp == spans_model(spans@),
            byte_len(spans_text(sp)) <= usize::MAX,
            k <= spans.len(),
            offset == byte_len(spans_text(sp.take(k as int))),
            ranges_model(out@) == kind_byte_ranges(sp.take(k as int), kind),
        decreases spans.len() - k,
    {
        let text = chars_of(spans[k].text.as_str());
        proof {
            lemma_spans_text_take(sp, k as int);
            lemma_byte_len_concat(spans_text(sp.take(k as int)), sp[k as int].1);
            lemma_spans_text_prefix_bytes(sp, k + 1);
            assert(text@.take(text.len() as int) =~= text@);
        }
        let width = prefix_bytes(&text, text.len());
        let end = offset + width;
        let ghost before = out@;
        if spans[k].kind == kind {
            out.push(offset..end);
            assert(ranges_model(out@) =~= ranges_model(before).push((offset as nat, end as nat)));
        }
        offset = end;
        k += 1;
    }
    assert(sp.take(spans.len() as int) =~= sp);
    out
}

/// Character ranges of the pieces of one kind within the line they make up
/// (the cursor of the editor counts characters).
pub fn span_char_ranges(spans: &[InlineSpan], kind: SpanKind) -> (r: Vec<Range<usize>>)
    requires
        spans_text(spans_model(spans@)).len() <= usize::MAX,
    ensures
        ranges_model(r@) == kind_char_ranges(spans_model(spans@), kind),
{
    let ghost sp = spans_model(spans@);
    let mut offset: usize = 0;
    let mut out: Vec<Range<usize>> = Vec::new();
    let mut k: usize = 0;
    assert(sp.take(0) =~= Seq::<SpanModel>::empty());
    while k < spans.len()
        invariant
            sp == spans_model(spans@),
            spans_text(sp).len() <= usize::MAX,
            k <= spans.len(),
            offset == spans_text(sp.take(k as int)).len(),
            ranges_model(out@) == kind_char_ranges(sp.take(k as int), kind),
        decreases spans.len() - k,
    {
        let text = chars_of(spans[k].text.as_str());
        proof {
            lemma_spans_text_take(sp, k as int);
            lemma_spans_text_prefix_bytes(sp, k + 1);
        }
        let end = offset + text.len();
        let ghost before = out@;
        if spans[k].kind == kind {
            out.push(offset..end);
            assert(ranges_model(out@) =~= ranges_model(before).push((offset as nat, end as nat)));
        }
        offset = end;
        k += 1;
    }
    assert(sp.take(spans.len() as int) =~= sp);
    out
}

/// Character index of the first character of every source line.
pub fn line_char_starts(text: &str) -> (r: Vec<usize>)
    ensures
        r.len() == split_nl(text@).len(),
        forall|k: int| 0 <= k < r.len() ==> r@[k] == char_start(split_nl(text@), k),
{
    let chars = chars_of(text);
    line_starts(&chars)
}

} // verus!
