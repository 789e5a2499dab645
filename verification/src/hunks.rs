//! The data of the editable unified view: the line changes of a body diff
//! grouped into hunks, where the deleted old lines of each hunk are shown,
//! which new lines are highlighted, and reverting one hunk at a time.
//!
//! Line numbers of the body diff are 1-based source lines cut at `'\n'`; the
//! rows of a hunk use 0-based new lines, the rows of the editor.

use crate::diff::{
    spans_model, spans_text, BlockChange, BlockModel, BodyDiff, ChangeKind, ChangeModel, DiffBlock,
    InlineSpan, SourceLine, SpanModel,
};
use crate::lcs::{lemma_script_aligns, new_indices, range_seq, script, DiffOp};
use crate::text::{
    byte_len, chars_of, copy_range, lemma_byte_len_concat, lemma_byte_len_ge_len, lemma_byte_len_subrange_le,
    lemma_byte_len_take_le, prefix_bytes, split_nl, string_of,
};
use std::ops::Range;
use vstd::prelude::*;

verus! {

/// An old line that was deleted or rewritten, shown in the gap.
#[derive(Debug, Clone, PartialEq, Eq)]
pub struct DeletedRow {
    /// Old line number (1-based).
    pub old_line: usize,
    /// Old-side pieces (`Same` + `Removed`); read in order they are the line.
    pub spans: Vec<InlineSpan>,
}

/// A new line that was added or rewritten, highlighted.
#[derive(Debug, Clone, PartialEq, Eq)]
pub struct AddedRow {
    /// New line number (0-based, the row of the editor).
    pub line: usize,
    /// New-side pieces of a rewritten line; empty for a line added whole.
    pub spans: Vec<InlineSpan>,
}

/// A hunk: a run of consecutive changes between two stretches of unchanged
/// lines.
#[derive(Debug, Clone, PartialEq, Eq)]
pub struct Hunk {
    /// Indices of the changes of the body diff it covers.
    pub changes: Range<usize>,
    /// Deleted and rewritten old lines in old order, shown before `gap_line`.
    pub deleted: Vec<DeletedRow>,
    /// Added and rewritten new lines.
    pub added: Vec<AddedRow>,
    /// The gap opens before this new line (0-based); the line count means at
    /// the end.
    pub gap_line: usize,
    /// First and last old line of the hunk (1-based); `None` for a pure
    /// insertion.
    pub old_lines: Option<(usize, usize)>,
    /// First and last new line of the hunk (1-based); `None` for a pure
    /// deletion.
    pub new_lines: Option<(usize, usize)>,
    /// The unchanged lines right before and after the hunk, as (old line, new
    /// line); reverting puts the separating blank lines back by them.
    pub prev_context: Option<(usize, usize)>,
    pub next_context: Option<(usize, usize)>,
}

pub type RowModel = (nat, Seq<SpanModel>);

pub struct HunkModel {
    pub changes: (nat, nat),
    pub deleted: Seq<RowModel>,
    pub added: Seq<RowModel>,
    pub gap_line: nat,
    pub old_lines: Option<(nat, nat)>,
    pub new_lines: Option<(nat, nat)>,
    pub prev_context: Option<(nat, nat)>,
    pub next_context: Option<(nat, nat)>,
}

pub open spec fn pair_model(p: Option<(usize, usize)>) -> Option<(nat, nat)> {
    match p {
        Some((a, b)) => Some((a as nat, b as nat)),
        None => None,
    }
}

pub open spec fn deleted_rows_model(v: Seq<DeletedRow>) -> Seq<RowModel> {
    v.map_values(|r: DeletedRow| (r.old_line as nat, spans_model(r.spans@)))
}

pub open spec fn added_rows_model(v: Seq<AddedRow>) -> Seq<RowModel> {
    v.map_values(|r: AddedRow| (r.line as nat, spans_model(r.spans@)))
}

impl Hunk {
    pub open spec fn model(&self) -> HunkModel {
        HunkModel {
            changes: (self.changes.start as nat, self.changes.end as nat),
            deleted: deleted_rows_model(self.deleted@),
            added: added_rows_model(self.added@),
            gap_line: self.gap_line as nat,
            old_lines: pair_model(self.old_lines),
            new_lines: pair_model(self.new_lines),
            prev_context: pair_model(self.prev_context),
            next_context: pair_model(self.next_context),
        }
    }

    /// The line ranges run forward and new lines are 1-based.
    pub open spec fn wf(&self) -> bool {
        &&& (self.old_lines matches Some((f, l)) ==> f <= l)
        &&& (self.new_lines matches Some((f, l)) ==> 1 <= f <= l)
    }

    /// First new line of the hunk (0-based): where the cursor jumps to.
    pub fn first_line(&self) -> (r: usize)
        ensures
            r == if self.added.len() > 0 {
                self.added@[0].line
            } else {
                self.gap_line
            },
    {
        if self.added.len() > 0 {
            self.added[0].line
        } else {
            self.gap_line
        }
    }

    /// Whether a cursor on new line `line` (0-based) is on the hunk: on one
    /// of its new lines, or, for a pure deletion, on the line below the gap.
    pub fn touches_line(&self, line: usize) -> (r: bool)
        requires
            self.wf(),
        ensures
            r == match self.new_lines {
                Some((first, last)) => first - 1 <= line < last,
                None => line == self.gap_line,
            },
    {
        match self.new_lines {
            Some((first, last)) => first - 1 <= line && line < last,
            None => line == self.gap_line,
        }
    }
}

impl DeletedRow {
    /// The whole old line: the pieces read in order.
    pub fn text(&self) -> (r: String)
        ensures
            r@ == spans_text(spans_model(self.spans@)),
    {
        let mut r = String::new();
        let mut k: usize = 0;
        while k < self.spans.len()
            invariant
                k <= self.spans.len(),
                r@ == spans_text(spans_model(self.spans@.take(k as int))),
            decreases self.spans.len() - k,
        {
            let ghost before = r@;
            crate::text::push_str(&mut r, self.spans[k].text.as_str());
            proof {
                let m = spans_model(self.spans@.take(k + 1));
                assert(m.drop_last() =~= spans_model(self.spans@.take(k as int)));
                assert(m.last() == (self.spans@[k as int].kind, self.spans@[k as int].text@));
            }
            k += 1;
        }
        assert(self.spans@.take(self.spans.len() as int) =~= self.spans@);
        r
    }
}

/// Number of source lines, cut at `'\n'` as the editor cuts them.
pub open spec fn line_total(s: Seq<char>) -> nat {
    split_nl(s).len()
}

/// Number of source lines of a text.
pub fn line_count(text: &str) -> (r: usize)
    requires
        text@.len() < usize::MAX,
    ensures
        r == line_total(text@),
{
    let chars = chars_of(text);
    let mut count: usize = 1;
    let mut p: usize = 0;
    proof {
        assert(chars@.take(0) =~= Seq::<char>::empty());
    }
    while p < chars.len()
        invariant
            p <= chars.len(),
            count == split_nl(chars@.take(p as int)).len(),
            count <= p + 1,
            chars.len() < usize::MAX,
        decreases chars.len() - p,
    {
        proof {
            crate::text::lemma_split_nl_nonempty(chars@.take(p as int));
            assert(chars@.take(p + 1).drop_last() =~= chars@.take(p as int));
            assert(chars@.take(p + 1).last() == chars@[p as int]);
        }
        if chars[p] == '\n' {
            count += 1;
        }
        p += 1;
    }
    assert(chars@.take(chars.len() as int) =~= chars@);
    count
}


// ---------------------------------------------------------------------------
// Grouping changes into hunks.

/// The line numbers of a body diff are those its fields document: every
/// change with a new side and every unchanged line has a 1-based new line.
pub open spec fn numbered(bs: Seq<BlockModel>) -> bool {
    &&& forall|i: int|
        0 <= i < bs.len() && (#[trigger] bs[i]) is Changed && bs[i]->Changed_0.kind != ChangeKind::Delete
            ==> bs[i]->Changed_0.new_line >= 1
    &&& forall|i: int, j: int|
        0 <= i < bs.len() && bs[i] is Unchanged && 0 <= j < bs[i]->Unchanged_0.len()
            ==> #[trigger] bs[i]->Unchanged_0[j].new_line >= 1
}

/// `range` widened to take in `line`.
pub open spec fn extend_model(range: Option<(nat, nat)>, line: nat) -> Option<(nat, nat)> {
    match range {
        Some((first, last)) => Some(
            (if line < first { line } else { first }, if line > last { line } else { last }),
        ),
        None => Some((line, line)),
    }
}

/// A hunk with one more change.
pub open spec fn push_change_model(h: HunkModel, c: ChangeModel) -> HunkModel {
    let h1 = if c.kind != ChangeKind::Insert {
        HunkModel {
            old_lines: extend_model(h.old_lines, c.old_line),
            deleted: h.deleted.push((c.old_line, c.before)),
            ..h
        }
    } else {
        h
    };
    if c.kind != ChangeKind::Delete {
        HunkModel {
            new_lines: extend_model(h1.new_lines, c.new_line),
            added: h1.added.push(
                ((c.new_line - 1) as nat, if c.kind == ChangeKind::Replace { c.after } else { seq![] }),
            ),
            ..h1
        }
    } else {
        h1
    }
}

/// `sorted` with `r` placed after every row whose line is at most its own.
pub open spec fn insert_row(sorted: Seq<RowModel>, r: RowModel) -> Seq<RowModel>
    decreases sorted.len(),
{
    if sorted.len() == 0 || sorted.last().0 <= r.0 {
        sorted.push(r)
    } else {
        insert_row(sorted.drop_last(), r).push(sorted.last())
    }
}

/// The rows ordered by line, rows on the same line kept in their order.
pub open spec fn sort_rows(v: Seq<RowModel>) -> Seq<RowModel>
    decreases v.len(),
{
    if v.len() == 0 {
        v
    } else {
        insert_row(sort_rows(v.drop_last()), v.last())
    }
}

/// A closed hunk: rows in line order, and the gap placed before its first new
/// line, else before the next unchanged line, else at the end.
pub open spec fn finish_model(h: HunkModel, total: nat) -> HunkModel {
    HunkModel {
        deleted: sort_rows(h.deleted),
        added: sort_rows(h.added),
        gap_line: match (h.new_lines, h.next_context) {
            (Some((first, _)), _) => (first - 1) as nat,
            (None, Some((_, next_new))) => (next_new - 1) as nat,
            (None, None) => total,
        },
        ..h
    }
}

/// Where the grouping stands after some blocks: the closed hunks, the open
/// one, the number of changes seen, and the last unchanged line seen.
pub struct HunkFold {
    pub out: Seq<HunkModel>,
    pub open: Option<HunkModel>,
    pub index: nat,
    pub prev: Option<(nat, nat)>,
}

pub open spec fn hunk_step(st: HunkFold, b: BlockModel, total: nat) -> HunkFold {
    match b {
        BlockModel::Unchanged(cs) => HunkFold {
            out: match st.open {
                Some(h) => st.out.push(
                    finish_model(
                        HunkModel {
                            next_context: if cs.len() > 0 {
                                Some((cs[0].old_line, cs[0].new_line))
                            } else {
                                None
                            },
                            ..h
                        },
                        total,
                    ),
                ),
                None => st.out,
            },
            open: None,
            index: st.index,
            prev: if cs.len() > 0 {
                Some((cs.last().old_line, cs.last().new_line))
            } else {
                None
            },
        },
        BlockModel::Changed(c) => {
            let h = match st.open {
                Some(h) => h,
                None => HunkModel {
                    changes: (st.index, st.index),
                    deleted: seq![],
                    added: seq![],
                    gap_line: total,
                    old_lines: None,
                    new_lines: None,
                    prev_context: st.prev,
                    next_context: None,
                },
            };
            let h2 = push_change_model(h, c);
            HunkFold {
                out: st.out,
                open: Some(HunkModel { changes: (h2.changes.0, st.index + 1), ..h2 }),
                index: st.index + 1,
                prev: st.prev,
            }
        },
    }
}

pub open spec fn hunk_fold(bs: Seq<BlockModel>, k: int, total: nat) -> HunkFold
    decreases k,
{
    if k <= 0 {
        HunkFold { out: seq![], open: None, index: 0, prev: None }
    } else {
        hunk_step(hunk_fold(bs, k - 1, total), bs[k - 1], total)
    }
}

/// The hunks of a body diff whose new text has `total` lines: runs of
/// consecutive changes, each closed when an unchanged stretch or the end
/// comes.
pub open spec fn hunks_model(bs: Seq<BlockModel>, total: nat) -> Seq<HunkModel> {
    let st = hunk_fold(bs, bs.len() as int, total);
    match st.open {
        Some(h) => st.out.push(finish_model(h, total)),
        None => st.out,
    }
}

pub open spec fn hunks_of(v: Seq<Hunk>) -> Seq<HunkModel> {
    v.map_values(|h: Hunk| h.model())
}

/// A copy of the pieces, piece by piece.
fn copy_spans(v: &Vec<InlineSpan>) -> (r: Vec<InlineSpan>)
    ensures
        spans_model(r@) == spans_model(v@),
{
    let mut r: Vec<InlineSpan> = Vec::new();
    let mut k: usize = 0;
    while k < v.len()
        invariant
            k <= v.len(),
            spans_model(r@) == spans_model(v@.take(k as int)),
        decreases v.len() - k,
    {
        let ghost before = r@;
        r.push(InlineSpan { kind: v[k].kind, text: v[k].text.clone() });
        assert(v@.take(k + 1) =~= v@.take(k as int).push(v@[k as int]));
        assert(spans_model(r@) =~= spans_model(before).push((v@[k as int].kind, v@[k as int].text@)));
        assert(spans_model(r@) =~= spans_model(v@.take(k + 1)));
        k += 1;
    }
    assert(v@.take(v.len() as int) =~= v@);
    r
}

fn extend(range: &mut Option<(usize, usize)>, line: usize)
    ensures
        pair_model(*final(range)) == extend_model(pair_model(*old(range)), line as nat),
        *final(range) matches Some((f, l)) ==> f <= l && (f == line || (*old(range) matches Some((g, _)) && f == g)),
{
    *range = Some(
        match *range {
            Some((first, last)) => (
                if line < first {
                    line
                } else {
                    first
                },
                if line > last {
                    line
                } else {
                    last
                },
            ),
            None => (line, line),
        },
    );
}

fn push_change(hunk: &mut Hunk, change: &BlockChange)
    requires
        old(hunk).wf(),
        change.kind != ChangeKind::Delete ==> change.new_line >= 1,
    ensures
        final(hunk).model() == push_change_model(old(hunk).model(), change.model()),
        final(hunk).wf(),
        final(hunk).changes == old(hunk).changes,
        final(hunk).gap_line == old(hunk).gap_line,
        final(hunk).next_context == old(hunk).next_context,
{
    let ghost start = hunk.model();
    if change.kind != ChangeKind::Insert {
        extend(&mut hunk.old_lines, change.old_line);
        let ghost rows = hunk.deleted@;
        hunk.deleted.push(DeletedRow { old_line: change.old_line, spans: copy_spans(&change.before_spans) });
        assert(deleted_rows_model(hunk.deleted@) =~= deleted_rows_model(rows).push(
            (change.old_line as nat, spans_model(change.before_spans@)),
        ));
    }
    let ghost mid = hunk.model();
    if change.kind != ChangeKind::Delete {
        extend(&mut hunk.new_lines, change.new_line);
        let spans = if change.kind == ChangeKind::Replace {
            copy_spans(&change.after_spans)
        } else {
            let empty: Vec<InlineSpan> = Vec::new();
            assert(spans_model(empty@) =~= Seq::<SpanModel>::empty());
            empty
        };
        let ghost rows = hunk.added@;
        let ghost sm = spans_model(spans@);
        hunk.added.push(AddedRow { line: change.new_line - 1, spans });
        assert(added_rows_model(hunk.added@) =~= added_rows_model(rows).push(
            ((change.new_line - 1) as nat, sm),
        ));
    }
}

proof fn lemma_insert_row_at(s: Seq<RowModel>, r: RowModel, p: int)
    requires
        0 <= p <= s.len(),
        forall|i: int| p <= i < s.len() ==> #[trigger] s[i].0 > r.0,
        p > 0 ==> s[p - 1].0 <= r.0,
    ensures
        insert_row(s, r) == s.take(p) + seq![r] + s.skip(p),
    decreases s.len(),
{
    if s.len() == 0 || s.last().0 <= r.0 {
        if p < s.len() {
            assert(s[s.len() - 1].0 > r.0);
        }
        assert(s.push(r) =~= s.take(p) + seq![r] + s.skip(p));
    } else {
        assert(p < s.len());
        let d = s.drop_last();
        assert forall|i: int| p <= i < d.len() implies #[trigger] d[i].0 > r.0 by {
            assert(d[i] == s[i]);
        }
        lemma_insert_row_at(d, r, p);
        assert(d.take(p) + seq![r] + d.skip(p) + seq![s.last()] =~= s.take(p) + seq![r] + s.skip(p));
    }
}

/// Deleted rows ordered by old line, rows on one line kept in their order.
fn sort_deleted(v: Vec<DeletedRow>) -> (r: Vec<DeletedRow>)
    ensures
        deleted_rows_model(r@) == sort_rows(deleted_rows_model(v@)),
{
    let ghost v0 = v@;
    let mut src = v;
    let mut rev: Vec<DeletedRow> = Vec::new();
    while src.len() > 0
        invariant
            v0 == src@ + rev@.reverse(),
        decreases src.len(),
    {
        let ghost before = rev@;
        let row = src.pop().unwrap();
        rev.push(row);
        assert(rev@.reverse() =~= seq![row] + before.reverse());
    }
    assert(src@ + rev@.reverse() =~= rev@.reverse());
    let mut out: Vec<DeletedRow> = Vec::new();
    let n = rev.len();
    proof {
        assert(rev@ =~= v0.skip(0).reverse());
        assert(v0.take(0) =~= Seq::<DeletedRow>::empty());
        assert(deleted_rows_model(out@) =~= sort_rows(deleted_rows_model(v0.take(0))));
    }
    while rev.len() > 0
        invariant
            n == v0.len(),
            rev.len() <= n,
            rev@ == v0.skip(n - rev.len()).reverse(),
            deleted_rows_model(out@) == sort_rows(deleted_rows_model(v0.take(n - rev.len()))),
        decreases rev.len(),
    {
        let ghost k = n - rev.len();
        let row = rev.pop().unwrap();
        assert(row == v0[k]) by {
            assert(v0.skip(k).reverse().last() == v0.skip(k)[0]);
        }
        let mut p = out.len();
        while p > 0 && out[p - 1].old_line > row.old_line
            invariant
                p <= out.len(),
                forall|i: int| p <= i < out.len() ==> out@[i].old_line > row.old_line,
            decreases p,
        {
            p -= 1;
        }
        proof {
            let m = deleted_rows_model(out@);
            assert forall|i: int| p <= i < m.len() implies #[trigger] m[i].0 > deleted_rows_model(seq![row])[0].0 by {}
            lemma_insert_row_at(m, deleted_rows_model(seq![row])[0], p as int);
            assert(v0.take(k + 1).drop_last() =~= v0.take(k));
            assert(deleted_rows_model(v0.take(k + 1)).drop_last() =~= deleted_rows_model(v0.take(k)));
            assert(deleted_rows_model(v0.take(k + 1)).last() == deleted_rows_model(seq![row])[0]);
            assert(v0.skip(k + 1).reverse() =~= v0.skip(k).reverse().drop_last());
        }
        let ghost before = out@;
        out.insert(p, row);
        assert(deleted_rows_model(out@) =~= deleted_rows_model(before).take(p as int) + seq![deleted_rows_model(seq![row])[0]] + deleted_rows_model(before).skip(p as int));
    }
    assert(v0.take(n as int) =~= v0);
    out
}

/// Added rows ordered by new line, rows on one line kept in their order.
fn sort_added(v: Vec<AddedRow>) -> (r: Vec<AddedRow>)
    ensures
        added_rows_model(r@) == sort_rows(added_rows_model(v@)),
{
    let ghost v0 = v@;
    let mut src = v;
    let mut rev: Vec<AddedRow> = Vec::new();
    while src.len() > 0
        invariant
            v0 == src@ + rev@.reverse(),
        decreases src.len(),
    {
        let ghost before = rev@;
        let row = src.pop().unwrap();
        rev.push(row);
        assert(rev@.reverse() =~= seq![row] + before.reverse());
    }
    assert(src@ + rev@.reverse() =~= rev@.reverse());
    let mut out: Vec<AddedRow> = Vec::new();
    let n = rev.len();
    proof {
        assert(rev@ =~= v0.skip(0).reverse());
        assert(v0.take(0) =~= Seq::<AddedRow>::empty());
        assert(added_rows_model(out@) =~= sort_rows(added_rows_model(v0.take(0))));
    }
    while rev.len() > 0
        invariant
            n == v0.len(),
            rev.len() <= n,
            rev@ == v0.skip(n - rev.len()).reverse(),
            added_rows_model(out@) == sort_rows(added_rows_model(v0.take(n - rev.len()))),
        decreases rev.len(),
    {
        let ghost k = n - rev.len();
        let row = rev.pop().unwrap();
        assert(row == v0[k]) by {
            assert(v0.skip(k).reverse().last() == v0.skip(k)[0]);
        }
        let mut p = out.len();
        while p > 0 && out[p - 1].line > row.line
            invariant
                p <= out.len(),
                forall|i: int| p <= i < out.len() ==> out@[i].line > row.line,
            decreases p,
        {
            p -= 1;
        }
        proof {
            let m = added_rows_model(out@);
            assert forall|i: int| p <= i < m.len() implies #[trigger] m[i].0 > added_rows_model(seq![row])[0].0 by {}
            lemma_insert_row_at(m, added_rows_model(seq![row])[0], p as int);
            assert(v0.take(k + 1).drop_last() =~= v0.take(k));
            assert(added_rows_model(v0.take(k + 1)).drop_last() =~= added_rows_model(v0.take(k)));
            assert(added_rows_model(v0.take(k + 1)).last() == added_rows_model(seq![row])[0]);
            assert(v0.skip(k + 1).reverse() =~= v0.skip(k).reverse().drop_last());
        }
        let ghost before = out@;
        out.insert(p, row);
        assert(added_rows_model(out@) =~= added_rows_model(before).take(p as int) + seq![added_rows_model(seq![row])[0]] + added_rows_model(before).skip(p as int));
    }
    assert(v0.take(n as int) =~= v0);
    out
}


/// Close a hunk: rows in line order, and the gap placed.
fn finish(hunk: Hunk, total_lines: usize) -> (r: Hunk)
    requires
        hunk.wf(),
        hunk.new_lines is None ==> (hunk.next_context matches Some((_, n)) ==> n >= 1),
    ensures
        r.model() == finish_model(hunk.model(), total_lines as nat),
        r.wf(),
{
    let mut hunk = hunk;
    let ghost start = hunk.model();
    let mut deleted: Vec<DeletedRow> = Vec::new();
    std::mem::swap(&mut deleted, &mut hunk.deleted);
    hunk.deleted = sort_deleted(deleted);
    let mut added: Vec<AddedRow> = Vec::new();
    std::mem::swap(&mut added, &mut hunk.added);
    hunk.added = sort_added(added);
    hunk.gap_line = match (hunk.new_lines, hunk.next_context) {
        (Some((first, _)), _) => first - 1,
        (None, Some((_, next_new))) => next_new - 1,
        (None, None) => total_lines,
    };
    hunk
}

pub open spec fn open_model(o: Option<Hunk>) -> Option<HunkModel> {
    match o {
        Some(h) => Some(h.model()),
        None => None,
    }
}

/// Group the changes of a body diff into hunks; `new_text` gives the line
/// count for a gap at the end.
pub fn hunks(body: &BodyDiff, new_text: &str) -> (r: Vec<Hunk>)
    requires
        numbered(body.model()),
        new_text@.len() < usize::MAX,
    ensures
        hunks_of(r@) == hunks_model(body.model(), line_total(new_text@)),
        forall|i: int| 0 <= i < r.len() ==> (#[trigger] r@[i]).wf(),
{
    let total_lines = line_count(new_text);
    let ghost bs = body.model();
    let ghost total = total_lines as nat;
    let mut out: Vec<Hunk> = Vec::new();
    let mut change_index: usize = 0;
    let mut prev_context: Option<(usize, usize)> = None;
    let mut open: Option<Hunk> = None;
    let mut k: usize = 0;
    assert(hunks_of(out@) =~= Seq::<HunkModel>::empty());
    while k < body.blocks.len()
        invariant
            bs == body.model(),
            total == total_lines as nat,
            numbered(bs),
            k <= body.blocks.len(),
            change_index <= k,
            (HunkFold {
                out: hunks_of(out@),
                open: open_model(open),
                index: change_index as nat,
                prev: pair_model(prev_context),
            }) == hunk_fold(bs, k as int, total),
            forall|i: int| 0 <= i < out.len() ==> (#[trigger] out@[i]).wf(),
            open matches Some(h) ==> h.wf() && h.next_context is None,
        decreases body.blocks.len() - k,
    {
        let ghost st = hunk_fold(bs, k as int, total);
        let ghost before = out@;
        assert(bs[k as int] == body.blocks@[k as int].model());
        match &body.blocks[k] {
            DiffBlock::Unchanged(context) => {
                proof {
                    if context.len() > 0 {
                        assert(crate::diff::contexts_model(context@)[0] == context@[0].model());
                        let cs = crate::diff::contexts_model(context@);
                        assert(bs[k as int] == BlockModel::Unchanged(cs));
                        assert(bs[k as int]->Unchanged_0[0].new_line >= 1);
                        assert(crate::diff::contexts_model(context@).last() == context@[context.len() - 1].model());
                    }
                }
                let taken = open.take();
                match taken {
                    Some(hunk) => {
                        let mut hunk = hunk;
                        hunk.next_context = if context.len() > 0 {
                            Some((context[0].old_line, context[0].new_line))
                        } else {
                            None
                        };
                        let done = finish(hunk, total_lines);
                        out.push(done);
                        assert(hunks_of(out@) =~= hunks_of(before).push(done.model()));
                    },
                    None => {},
                }
                prev_context = if context.len() > 0 {
                    Some((context[context.len() - 1].old_line, context[context.len() - 1].new_line))
                } else {
                    None
                };
            },
            DiffBlock::Changed(change) => {
                let taken = open.take();
                let mut hunk = match taken {
                    Some(h) => h,
                    None => {
                        let h = Hunk {
                            changes: change_index..change_index,
                            deleted: Vec::new(),
                            added: Vec::new(),
                            gap_line: total_lines,
                            old_lines: None,
                            new_lines: None,
                            prev_context,
                            next_context: None,
                        };
                        assert(deleted_rows_model(h.deleted@) =~= Seq::<RowModel>::empty());
                        assert(added_rows_model(h.added@) =~= Seq::<RowModel>::empty());
                        h
                    },
                };
                assert(change.kind != ChangeKind::Delete ==> change.model().new_line >= 1);
                push_change(&mut hunk, change);
                change_index += 1;
                hunk.changes.end = change_index;
                open = Some(hunk);
            },
        }
        k += 1;
    }
    let taken = open.take();
    match taken {
        Some(hunk) => {
            let ghost before = out@;
            let done = finish(hunk, total_lines);
            out.push(done);
            assert(hunks_of(out@) =~= hunks_of(before).push(done.model()));
        },
        None => {},
    }
    out
}


// ---------------------------------------------------------------------------
// Lines of a text, by character position.

/// Character offset at which piece `k` of `ps` starts, each piece followed by
/// one `'\n'`.
pub open spec fn char_start(ps: Seq<Seq<char>>, k: int) -> int
    decreases k,
{
    if k <= 0 {
        0
    } else {
        char_start(ps, k - 1) + ps[k - 1].len() + 1
    }
}

/// Character range of line `line` (1-based) of `s`, its `'\n'` left out.
pub open spec fn line_span(s: Seq<char>, line: int) -> Option<(int, int)> {
    let ps = split_nl(s);
    if 1 <= line <= ps.len() {
        Some((char_start(ps, line - 1), char_start(ps, line - 1) + ps[line - 1].len()))
    } else {
        None
    }
}

pub proof fn lemma_char_start_prefix(ps: Seq<Seq<char>>, qs: Seq<Seq<char>>, k: int)
    requires
        0 <= k <= ps.len(),
        k <= qs.len(),
        forall|t: int| 0 <= t < k ==> ps[t] == qs[t],
    ensures
        char_start(ps, k) == char_start(qs, k),
    decreases k,
{
    if k > 0 {
        lemma_char_start_prefix(ps, qs, k - 1);
    }
}

/// The last line of a text ends where the text ends.
pub proof fn lemma_split_nl_total(s: Seq<char>)
    ensures
        split_nl(s).len() >= 1,
        char_start(split_nl(s), split_nl(s).len() - 1) + split_nl(s).last().len() == s.len(),
    decreases s.len(),
{
    crate::text::lemma_split_nl_nonempty(s);
    if s.len() > 0 {
        let d = s.drop_last();
        lemma_split_nl_total(d);
        let ps = split_nl(d);
        let qs = split_nl(s);
        if s.last() == '\n' {
            assert(qs == ps.push(seq![]));
            lemma_char_start_prefix(ps, qs, ps.len() - 1);
        } else {
            assert(qs == ps.update(ps.len() - 1, ps.last().push(s.last())));
            lemma_char_start_prefix(ps, qs, ps.len() - 1);
        }
    }
}

/// Position of the first character of every line.
pub fn line_starts(text: &Vec<char>) -> (r: Vec<usize>)
    ensures
        r.len() == split_nl(text@).len(),
        forall|k: int| 0 <= k < r.len() ==> r@[k] == char_start(split_nl(text@), k),
{
    let ghost s = text@;
    let mut r: Vec<usize> = Vec::new();
    r.push(0);
    let mut p: usize = 0;
    proof {
        assert(s.take(0) =~= Seq::<char>::empty());
    }
    while p < text.len()
        invariant
            s == text@,
            p <= text.len(),
            r.len() == split_nl(s.take(p as int)).len(),
            forall|k: int| 0 <= k < r.len() ==> r@[k] == char_start(split_nl(s.take(p as int)), k),
        decreases text.len() - p,
    {
        let ghost ps = split_nl(s.take(p as int));
        let ghost t = s.take(p + 1);
        proof {
            lemma_split_nl_total(s.take(p as int));
            assert(t.drop_last() =~= s.take(p as int));
            assert(t.last() == s[p as int]);
        }
        if text[p] == '\n' {
            r.push(p + 1);
            proof {
                let qs = split_nl(t);
                assert(qs == ps.push(seq![]));
                lemma_char_start_prefix(ps, qs, ps.len() as int);
                assert forall|k: int| 0 <= k < r.len() implies r@[k] == char_start(qs, k) by {
                    if k < ps.len() {
                        lemma_char_start_prefix(ps, qs, k);
                    }
                }
            }
        } else {
            proof {
                let qs = split_nl(t);
                assert(qs == ps.update(ps.len() - 1, ps.last().push(s[p as int])));
                assert forall|k: int| 0 <= k < r.len() implies r@[k] == char_start(qs, k) by {
                    lemma_char_start_prefix(ps, qs, k);
                }
            }
        }
        p += 1;
    }
    assert(s.take(text.len() as int) =~= s);
    r
}

/// Character range of line `line` (1-based); `None` past either end.
pub fn line_range(starts: &Vec<usize>, text: &Vec<char>, line: usize) -> (r: Option<(usize, usize)>)
    requires
        starts.len() == split_nl(text@).len(),
        forall|k: int| 0 <= k < starts.len() ==> starts@[k] == char_start(split_nl(text@), k),
    ensures
        match r {
            Some((a, b)) => line_span(text@, line as int) == Some((a as int, b as int)) && a <= b <= text.len(),
            None => line_span(text@, line as int) is None,
        },
{
    proof {
        lemma_split_nl_total(text@);
    }
    if line == 0 || line > starts.len() {
        return None;
    }
    let start = starts[line - 1];
    let ghost ps = split_nl(text@);
    proof {
        lemma_char_start_le(ps, line - 1, ps.len() - 1);
    }
    let end = if line < starts.len() {
        proof {
            assert(starts@[line as int] == char_start(ps, line as int));
            lemma_char_start_le(ps, line as int, ps.len() - 1);
        }
        starts[line] - 1
    } else {
        text.len()
    };
    Some((start, end))
}

pub proof fn lemma_char_start_le(ps: Seq<Seq<char>>, i: int, j: int)
    requires
        0 <= i <= j < ps.len(),
    ensures
        char_start(ps, i) + ps[i].len() <= char_start(ps, j) + ps[j].len(),
        i < j ==> char_start(ps, i) + ps[i].len() < char_start(ps, j),
    decreases j - i,
{
    if i < j {
        lemma_char_start_le(ps, i, j - 1);
    }
}


// ---------------------------------------------------------------------------
// Reverting one hunk.

/// `s` with `s[lo..hi]` replaced by `ins`.
pub open spec fn splice(s: Seq<char>, lo: int, hi: int, ins: Seq<char>) -> Seq<char> {
    s.take(lo) + ins + s.skip(hi)
}

/// Start of line `line`, or `default` when there is no such line.
pub open spec fn start_or(s: Seq<char>, line: int, default: int) -> int {
    match line_span(s, line) {
        Some(x) => x.0,
        None => default,
    }
}

/// End of line `line`, or `default` when there is no such line.
pub open spec fn end_or(s: Seq<char>, line: int, default: int) -> int {
    match line_span(s, line) {
        Some(x) => x.1,
        None => default,
    }
}

/// The text with one hunk put back as the old text has it, and the character
/// position where the cursor goes (the start of the reverted stretch).
///
/// A rewrite (possibly with lines added or deleted around it) swaps the whole
/// stretch of new lines for the stretch of old lines. A pure insertion drops
/// its lines together with the blank lines that part them from what follows
/// (or, at the end, from what precedes). A pure deletion puts the old lines
/// back, with the separating blank lines the old text had. When a line the
/// hunk names is missing, the text stays as it is.
pub open spec fn revert_model(h: HunkModel, old: Seq<char>, new: Seq<char>) -> (Seq<char>, int) {
    match (h.old_lines, h.new_lines) {
        (Some((of, ol)), Some((nf, nl))) => match (
            line_span(old, of as int),
            line_span(old, ol as int),
            line_span(new, nf as int),
            line_span(new, nl as int),
        ) {
            (Some(a), Some(b), Some(c), Some(d)) => (splice(new, c.0, d.1, old.subrange(a.0, b.1)), c.0),
            _ => (new, 0),
        },
        (None, Some((nf, nl))) => match (line_span(new, nf as int), line_span(new, nl as int)) {
            (Some(c), Some(d)) => {
                let (lo, hi) = match (h.next_context, h.prev_context) {
                    (Some((_, next)), _) => (c.0, start_or(new, next as int, new.len() as int)),
                    (None, Some((_, prev))) => (end_or(new, prev as int, 0), d.1),
                    (None, None) => (0, new.len() as int),
                };
                (splice(new, lo, hi, seq![]), lo)
            },
            _ => (new, 0),
        },
        (Some((of, ol)), None) => match (line_span(old, of as int), line_span(old, ol as int)) {
            (Some(a), Some(b)) => {
                let chunk = old.subrange(a.0, b.1);
                match (h.next_context, h.prev_context) {
                    (Some((next_old, next_new)), _) => {
                        let sep = old.subrange(b.1, start_or(old, next_old as int, old.len() as int));
                        let at = start_or(new, next_new as int, new.len() as int);
                        (splice(new, at, at, chunk + sep), at)
                    },
                    (None, Some((prev_old, prev_new))) => {
                        let sep = old.subrange(end_or(old, prev_old as int, 0), a.0);
                        let at = end_or(new, prev_new as int, new.len() as int);
                        (splice(new, at, at, sep + chunk), at + sep.len())
                    },
                    (None, None) => (chunk, 0),
                }
            },
            _ => (new, 0),
        },
        (None, None) => (new, 0),
    }
}

/// The old stretches a revert copies run forward: what the original slices
/// out of the old text is a well-formed range.
pub open spec fn revert_defined(h: HunkModel, old: Seq<char>, new: Seq<char>) -> bool {
    match (h.old_lines, h.new_lines) {
        (Some((of, ol)), Some((nf, nl))) => match (
            line_span(old, of as int),
            line_span(old, ol as int),
            line_span(new, nf as int),
            line_span(new, nl as int),
        ) {
            (Some(a), Some(b), Some(_), Some(_)) => a.0 <= b.1,
            _ => true,
        },
        (Some((of, ol)), None) => match (line_span(old, of as int), line_span(old, ol as int)) {
            (Some(a), Some(b)) => a.0 <= b.1 && match (h.next_context, h.prev_context) {
                (Some((next_old, _)), _) => b.1 <= start_or(old, next_old as int, old.len() as int),
                (None, Some((prev_old, _))) => end_or(old, prev_old as int, 0) <= a.0,
                (None, None) => true,
            },
            _ => true,
        },
        _ => true,
    }
}

fn splice_chars(s: &Vec<char>, lo: usize, hi: usize, ins: &Vec<char>) -> (r: Vec<char>)
    requires
        lo <= s.len(),
        hi <= s.len(),
    ensures
        r@ == splice(s@, lo as int, hi as int, ins@),
{
    let mut r = copy_range(s, 0, lo);
    let mut k: usize = 0;
    while k < ins.len()
        invariant
            k <= ins.len(),
            r@ == s@.take(lo as int) + ins@.take(k as int),
        decreases ins.len() - k,
    {
        r.push(ins[k]);
        k += 1;
        assert(r@ =~= s@.take(lo as int) + ins@.take(k as int));
    }
    let mut k: usize = hi;
    assert(ins@.take(ins.len() as int) =~= ins@);
    assert(s@.subrange(hi as int, hi as int) =~= Seq::<char>::empty());
    while k < s.len()
        invariant
            hi <= k <= s.len(),
            r@ == s@.take(lo as int) + ins@ + s@.subrange(hi as int, k as int),
        decreases s.len() - k,
    {
        r.push(s[k]);
        k += 1;
        assert(r@ =~= s@.take(lo as int) + ins@ + s@.subrange(hi as int, k as int));
    }
    assert(s@.subrange(hi as int, s.len() as int) =~= s@.skip(hi as int));
    assert(s@.subrange(0, lo as int) =~= s@.take(lo as int));
    r
}

fn concat_chars(a: &Vec<char>, b: &Vec<char>) -> (r: Vec<char>)
    ensures
        r@ == a@ + b@,
{
    let r = splice_chars(a, a.len(), a.len(), b);
    assert(a@.take(a.len() as int) + b@ + a@.skip(a.len() as int) =~= a@ + b@);
    r
}

/// Start of line `line`, or `default`.
fn start_or_default(starts: &Vec<usize>, text: &Vec<char>, line: usize, default: usize) -> (r: usize)
    requires
        starts.len() == split_nl(text@).len(),
        forall|k: int| 0 <= k < starts.len() ==> starts@[k] == char_start(split_nl(text@), k),
        default <= text.len(),
    ensures
        r == start_or(text@, line as int, default as int),
        r <= text.len(),
{
    match line_range(starts, text, line) {
        Some((a, _)) => a,
        None => default,
    }
}

/// End of line `line`, or `default`.
fn end_or_default(starts: &Vec<usize>, text: &Vec<char>, line: usize, default: usize) -> (r: usize)
    requires
        starts.len() == split_nl(text@).len(),
        forall|k: int| 0 <= k < starts.len() ==> starts@[k] == char_start(split_nl(text@), k),
        default <= text.len(),
    ensures
        r == end_or(text@, line as int, default as int),
        r <= text.len(),
{
    match line_range(starts, text, line) {
        Some((_, b)) => b,
        None => default,
    }
}

fn revert_chars(
    hunk: &Hunk,
    old: &Vec<char>,
    new: &Vec<char>,
    old_starts: &Vec<usize>,
    new_starts: &Vec<usize>,
) -> (r: (Vec<char>, usize))
    requires
        revert_defined(hunk.model(), old@, new@),
        old_starts.len() == split_nl(old@).len(),
        forall|k: int| 0 <= k < old_starts.len() ==> old_starts@[k] == char_start(split_nl(old@), k),
        new_starts.len() == split_nl(new@).len(),
        forall|k: int| 0 <= k < new_starts.len() ==> new_starts@[k] == char_start(split_nl(new@), k),
    ensures
        (r.0@, r.1 as int) == revert_model(hunk.model(), old@, new@),
        r.1 <= r.0.len(),
{
    let unchanged = copy_range(new, 0, new.len());
    assert(new@.subrange(0, new.len() as int) =~= new@);
    assert(unchanged@.take(0) =~= Seq::<char>::empty());
    match (hunk.old_lines, hunk.new_lines) {
        (Some((old_first, old_last)), Some((new_first, new_last))) => {
            match (
                line_range(old_starts, old, old_first),
                line_range(old_starts, old, old_last),
                line_range(new_starts, new, new_first),
                line_range(new_starts, new, new_last),
            ) {
                (Some((a0, _)), Some((_, b1)), Some((c0, _)), Some((_, d1))) => {
                    let chunk = copy_range(old, a0, b1);
                    let text = splice_chars(new, c0, d1, &chunk);
                    (text, c0)
                },
                _ => (unchanged, 0),
            }
        },
        (None, Some((new_first, new_last))) => {
            match (line_range(new_starts, new, new_first), line_range(new_starts, new, new_last)) {
                (Some((c0, _)), Some((_, d1))) => {
                    let (lo, hi) = match (hunk.next_context, hunk.prev_context) {
                        (Some((_, next)), _) => (c0, start_or_default(new_starts, new, next, new.len())),
                        (None, Some((_, prev))) => (end_or_default(new_starts, new, prev, 0), d1),
                        (None, None) => (0, new.len()),
                    };
                    let nothing: Vec<char> = Vec::new();
                    let text = splice_chars(new, lo, hi, &nothing);
                    proof {
                        assert(new@.take(lo as int).len() == lo);
                    }
                    (text, lo)
                },
                _ => (unchanged, 0),
            }
        },
        (Some((old_first, old_last)), None) => {
            match (line_range(old_starts, old, old_first), line_range(old_starts, old, old_last)) {
                (Some((a0, _)), Some((_, b1))) => {
                    let chunk = copy_range(old, a0, b1);
                    match (hunk.next_context, hunk.prev_context) {
                        (Some((next_old, next_new)), _) => {
                            let sep_end = start_or_default(old_starts, old, next_old, old.len());
                            let sep = copy_range(old, b1, sep_end);
                            let at = start_or_default(new_starts, new, next_new, new.len());
                            let ins = concat_chars(&chunk, &sep);
                            let text = splice_chars(new, at, at, &ins);
                            (text, at)
                        },
                        (None, Some((prev_old, prev_new))) => {
                            let sep_start = end_or_default(old_starts, old, prev_old, 0);
                            let sep = copy_range(old, sep_start, a0);
                            let at = end_or_default(new_starts, new, prev_new, new.len());
                            let ins = concat_chars(&sep, &chunk);
                            let text = splice_chars(new, at, at, &ins);
                            assert(text.len() == at + sep.len() + chunk.len() + (new.len() - at));
                            (text, at + sep.len())
                        },
                        (None, None) => {
                            assert(chunk@.take(0) =~= Seq::<char>::empty());
                            (chunk, 0)
                        },
                    }
                },
                _ => (unchanged, 0),
            }
        },
        (None, None) => (unchanged, 0),
    }
}


/// Put one hunk back as the old text has it. Returns the whole text after
/// the revert and the byte position where the cursor goes: the start of the
/// reverted stretch.
pub fn revert(hunk: &Hunk, old: &str, new: &str) -> (r: (String, usize))
    requires
        revert_defined(hunk.model(), old@, new@),
    ensures
        r.0@ == revert_model(hunk.model(), old@, new@).0,
        r.1 == byte_len(r.0@.take(revert_model(hunk.model(), old@, new@).1)),
{
    let old_chars = chars_of(old);
    let new_chars = chars_of(new);
    let old_starts = line_starts(&old_chars);
    let new_starts = line_starts(&new_chars);
    let (text, cursor) = revert_chars(hunk, &old_chars, &new_chars, &old_starts, &new_starts);
    let result = string_of(&text);
    crate::text::str_bytes_fit(result.as_str());
    proof {
        lemma_byte_len_take_le(text@, cursor as int);
    }
    let bytes = prefix_bytes(&text, cursor);
    (result, bytes)
}


/// Line `k` of `s` sits at its start, and a line other than the last is
/// followed by a `'\n'`.
pub proof fn lemma_split_nl_piece(s: Seq<char>, k: int)
    requires
        0 <= k < split_nl(s).len(),
    ensures
        0 <= char_start(split_nl(s), k),
        char_start(split_nl(s), k) + split_nl(s)[k].len() <= s.len(),
        s.subrange(char_start(split_nl(s), k), char_start(split_nl(s), k) + split_nl(s)[k].len())
            == split_nl(s)[k],
        k < split_nl(s).len() - 1 ==> char_start(split_nl(s), k) + split_nl(s)[k].len() < s.len()
            && s[char_start(split_nl(s), k) + split_nl(s)[k].len()] == '\n',
    decreases s.len(),
{
    lemma_split_nl_total(s);
    let ps = split_nl(s);
    if s.len() == 0 {
        assert(s.subrange(0, 0) =~= Seq::<char>::empty());
    } else {
        let d = s.drop_last();
        lemma_split_nl_total(d);
        let pd = split_nl(d);
        lemma_char_start_le(ps, k, ps.len() - 1);
        if s.last() == '\n' {
            assert(ps == pd.push(seq![]));
            if k < pd.len() {
                lemma_split_nl_piece(d, k);
                lemma_char_start_prefix(pd, ps, k);
                assert(ps[k] == pd[k]);
                assert(s.subrange(char_start(ps, k), char_start(ps, k) + ps[k].len()) =~= d.subrange(
                    char_start(pd, k),
                    char_start(pd, k) + pd[k].len(),
                ));
                if k < pd.len() - 1 {
                    assert(s[char_start(pd, k) + pd[k].len()] == d[char_start(pd, k) + pd[k].len()]);
                }
            } else {
                lemma_char_start_prefix(pd, ps, pd.len() as int);
                assert(char_start(ps, k) == s.len());
                assert(s.subrange(char_start(ps, k), char_start(ps, k) + ps[k].len()) =~= Seq::<char>::empty());
            }
        } else {
            assert(ps == pd.update(pd.len() - 1, pd.last().push(s.last())));
            lemma_split_nl_piece(d, k);
            lemma_char_start_prefix(pd, ps, k);
            if k < pd.len() - 1 {
                assert(ps[k] == pd[k]);
                assert(s.subrange(char_start(ps, k), char_start(ps, k) + ps[k].len()) =~= d.subrange(
                    char_start(pd, k),
                    char_start(pd, k) + pd[k].len(),
                ));
                assert(s[char_start(pd, k) + pd[k].len()] == d[char_start(pd, k) + pd[k].len()]);
            } else {
                assert(s.subrange(char_start(ps, k), char_start(ps, k) + ps[k].len()) =~= d.subrange(
                    char_start(pd, k),
                    char_start(pd, k) + pd[k].len(),
                ).push(s.last()));
            }
        }
    }
}

/// The byte offset of a line is the byte length of the text before it.
pub proof fn lemma_piece_start_bytes(s: Seq<char>, k: int)
    requires
        0 <= k < split_nl(s).len(),
    ensures
        crate::diff::piece_start(split_nl(s), k) == byte_len(s.take(char_start(split_nl(s), k))),
    decreases k,
{
    let ps = split_nl(s);
    if k == 0 {
        assert(s.take(0) =~= Seq::<char>::empty());
    } else {
        lemma_piece_start_bytes(s, k - 1);
        lemma_split_nl_piece(s, k - 1);
        let a = char_start(ps, k - 1);
        let b = a + ps[k - 1].len();
        assert(s.subrange(a, b) == ps[k - 1]);
        assert(s[b] == '\n');
        assert(s.take(b + 1) =~= s.take(a) + ps[k - 1] + seq!['\n']);
        lemma_byte_len_concat(s.take(a), ps[k - 1]);
        lemma_byte_len_concat(s.take(a) + ps[k - 1], seq!['\n']);
        assert(byte_len(seq!['\n']) == 1) by {
            let nl: Seq<char> = seq!['\n'];
            assert(nl.drop_last() =~= Seq::<char>::empty());
            assert(byte_len(nl.drop_last()) == 0);
            assert(nl.last() == '\n');
            assert(crate::text::utf8_width('\n') == 1);
            assert(byte_len(nl) == byte_len(nl.drop_last()) + crate::text::utf8_width(nl.last()));
        }
        assert(char_start(ps, k) == b + 1);
        assert(crate::diff::piece_start(ps, k) == crate::diff::piece_start(ps, k - 1) + byte_len(ps[k - 1]) + 1);
    }
}

// ---------------------------------------------------------------------------
// The body diff is numbered.

/// Every line the body diff works on has a 1-based line number.
pub proof fn lemma_lines_upto_numbered(ps: Seq<Seq<char>>, k: int)
    ensures
        forall|i: int| 0 <= i < crate::diff::lines_upto(ps, k).len() ==> #[trigger] crate::diff::lines_upto(ps, k)[i].line >= 1,
    decreases k,
{
    if k > 0 {
        lemma_lines_upto_numbered(ps, k - 1);
        let prev = crate::diff::lines_upto(ps, k - 1);
        assert forall|i: int| 0 <= i < crate::diff::lines_upto(ps, k).len() implies #[trigger] crate::diff::lines_upto(ps, k)[i].line >= 1 by {
            if i < prev.len() {
                assert(crate::diff::lines_upto(ps, k)[i] == prev[i]);
            }
        }
    }
}

/// Every new-side index of the script's steps is one of `new_indices`.
proof fn lemma_insert_indexed(ops: Seq<DiffOp>, k: int)
    requires
        0 <= k < ops.len(),
    ensures
        ops[k] matches DiffOp::Insert(j) ==> new_indices(ops).contains(j as int),
        ops[k] matches DiffOp::Same(_, j) ==> new_indices(ops).contains(j as int),
    decreases ops.len(),
{
    let rest = new_indices(ops.drop_first());
    let head: Seq<int> = match ops[0] {
        DiffOp::Same(_, j) => seq![j as int],
        DiffOp::Insert(j) => seq![j as int],
        DiffOp::Delete(_) => seq![],
    };
    assert(new_indices(ops) == head + rest);
    if k > 0 {
        lemma_insert_indexed(ops.drop_first(), k - 1);
        assert(ops.drop_first()[k - 1] == ops[k]);
        if let DiffOp::Insert(j) = ops[k] {
            let t = choose|t: int| 0 <= t < rest.len() && rest[t] == j as int;
            assert((head + rest)[head.len() + t] == rest[t]);
        }
        if let DiffOp::Same(_, j) = ops[k] {
            let t = choose|t: int| 0 <= t < rest.len() && rest[t] == j as int;
            assert((head + rest)[head.len() + t] == rest[t]);
        }
    } else {
        assert((head + rest)[0] == head[0] || head.len() == 0);
    }
}

/// The new-side indices of the steps stay below `n`.
pub open spec fn ops_below(ops: Seq<DiffOp>, n: int) -> bool {
    forall|k: int|
        0 <= k < ops.len() ==> match #[trigger] ops[k] {
            DiffOp::Same(_, j) => j < n,
            DiffOp::Insert(j) => j < n,
            DiffOp::Delete(_) => true,
        }
}

/// The new-side indices of the runs stay below `n`.
pub open spec fn segs_below(segs: Seq<crate::diff::Seg>, n: int) -> bool {
    forall|k: int|
        0 <= k < segs.len() ==> match #[trigger] segs[k] {
            crate::diff::Seg::Keep(ps) => forall|t: int| 0 <= t < ps.len() ==> (#[trigger] ps[t]).1 < n,
            crate::diff::Seg::Edit(_, xs) => forall|t: int| 0 <= t < xs.len() ==> #[trigger] xs[t] < n,
        }
}

proof fn lemma_segments_below(ops: Seq<DiffOp>, n: int)
    requires
        ops_below(ops, n),
    ensures
        segs_below(crate::diff::segments(ops), n),
    decreases ops.len(),
{
    if ops.len() > 0 {
        let d = ops.drop_last();
        assert forall|k: int| 0 <= k < d.len() implies match #[trigger] d[k] {
            DiffOp::Same(_, j) => j < n,
            DiffOp::Insert(j) => j < n,
            DiffOp::Delete(_) => true,
        } by {
            assert(d[k] == ops[k]);
        }
        lemma_segments_below(d, n);
        let prev = crate::diff::segments(d);
        let segs = crate::diff::segments(ops);
        let last = ops.last();
        assert(match last {
            DiffOp::Same(_, j) => j < n,
            DiffOp::Insert(j) => j < n,
            DiffOp::Delete(_) => true,
        }) by {
            assert(last == ops[ops.len() - 1]);
        }
        assert forall|k: int| 0 <= k < segs.len() implies match #[trigger] segs[k] {
            crate::diff::Seg::Keep(ps) => forall|t: int| 0 <= t < ps.len() ==> (#[trigger] ps[t]).1 < n,
            crate::diff::Seg::Edit(_, xs) => forall|t: int| 0 <= t < xs.len() ==> #[trigger] xs[t] < n,
        } by {
            if k < prev.len() - 1 || (k < prev.len() && segs[k] == prev[k]) {
                assert(segs[k] == prev[k]);
            } else if k == prev.len() - 1 {
                match prev.last() {
                    crate::diff::Seg::Keep(ps) => {
                        if let DiffOp::Same(i, j) = last {
                            assert(segs[k] == crate::diff::Seg::Keep(ps.push((i, j))));
                            assert forall|t: int| 0 <= t < ps.push((i, j)).len() implies (#[trigger] ps.push((i, j))[t]).1 < n by {
                                if t < ps.len() {
                                    assert(ps.push((i, j))[t] == ps[t]);
                                }
                            }
                        }
                    },
                    crate::diff::Seg::Edit(rs, xs) => {
                        if let DiffOp::Insert(j) = last {
                            assert(segs[k] == crate::diff::Seg::Edit(rs, xs.push(j)));
                            assert forall|t: int| 0 <= t < xs.push(j).len() implies #[trigger] xs.push(j)[t] < n by {
                                if t < xs.len() {
                                    assert(xs.push(j)[t] == xs[t]);
                                }
                            }
                        } else if let DiffOp::Delete(i) = last {
                            assert(segs[k] == crate::diff::Seg::Edit(rs.push(i), xs));
                        }
                    },
                }
            }
        }
    }
}

/// The blocks drawn from runs whose new-side indices are in range are
/// numbered.
proof fn lemma_render_numbered(segs: Seq<crate::diff::Seg>, ol: Seq<SourceLine>, nl: Seq<SourceLine>)
    requires
        segs_below(segs, nl.len() as int),
        forall|i: int| 0 <= i < nl.len() ==> (#[trigger] nl[i]).line >= 1,
    ensures
        numbered(crate::diff::render(segs, ol, nl)),
    decreases segs.len(),
{
    if segs.len() > 0 {
        let d = segs.drop_last();
        assert forall|k: int| 0 <= k < d.len() implies match #[trigger] d[k] {
            crate::diff::Seg::Keep(ps) => forall|t: int| 0 <= t < ps.len() ==> (#[trigger] ps[t]).1 < nl.len(),
            crate::diff::Seg::Edit(_, xs) => forall|t: int| 0 <= t < xs.len() ==> #[trigger] xs[t] < nl.len(),
        } by {
            assert(d[k] == segs[k]);
        }
        lemma_render_numbered(d, ol, nl);
        let a = crate::diff::render(d, ol, nl);
        let seg = segs.last();
        let b = crate::diff::seg_model(seg, ol, nl);
        assert(segs[segs.len() - 1] == seg);
        assert(numbered(b)) by {
            match seg {
                crate::diff::Seg::Keep(ps) => {
                    let ctx = ps.map_values(|p: (usize, usize)| crate::diff::context_model(ol[p.0 as int], nl[p.1 as int]));
                    assert forall|j: int| 0 <= j < ctx.len() implies #[trigger] ctx[j].new_line >= 1 by {
                        assert(ps[j].1 < nl.len());
                    }
                },
                crate::diff::Seg::Edit(rs, xs) => {
                    lemma_edit_numbered(rs, xs, ol, nl, crate::diff::max_len(rs, xs));
                },
            }
        }
        let r = crate::diff::render(segs, ol, nl);
        assert(r == a + b);
        assert forall|i: int|
            0 <= i < r.len() && (#[trigger] r[i]) is Changed && r[i]->Changed_0.kind != ChangeKind::Delete implies r[i]->Changed_0.new_line >= 1 by {
            if i < a.len() {
                assert(r[i] == a[i]);
            } else {
                assert(r[i] == b[i - a.len()]);
            }
        }
        assert forall|i: int, j: int|
            0 <= i < r.len() && r[i] is Unchanged && 0 <= j < r[i]->Unchanged_0.len() implies #[trigger] r[i]->Unchanged_0[j].new_line >= 1 by {
            if i < a.len() {
                assert(r[i] == a[i]);
            } else {
                assert(r[i] == b[i - a.len()]);
            }
        }
    }
}

proof fn lemma_edit_numbered(rs: Seq<usize>, xs: Seq<usize>, ol: Seq<SourceLine>, nl: Seq<SourceLine>, k: int)
    requires
        forall|t: int| 0 <= t < xs.len() ==> #[trigger] xs[t] < nl.len(),
        forall|i: int| 0 <= i < nl.len() ==> (#[trigger] nl[i]).line >= 1,
    ensures
        numbered(crate::diff::edit_model(rs, xs, ol, nl, k)),
    decreases k,
{
    if k > 0 {
        lemma_edit_numbered(rs, xs, ol, nl, k - 1);
        let a = crate::diff::edit_model(rs, xs, ol, nl, k - 1);
        let b = crate::diff::edit_step(rs, xs, ol, nl, k - 1);
        let r = crate::diff::edit_model(rs, xs, ol, nl, k);
        assert(r == a + b);
        if k - 1 < xs.len() {
            assert(nl[xs[k - 1] as int].line >= 1);
        }
        assert forall|i: int|
            0 <= i < r.len() && (#[trigger] r[i]) is Changed && r[i]->Changed_0.kind != ChangeKind::Delete implies r[i]->Changed_0.new_line >= 1 by {
            if i < a.len() {
                assert(r[i] == a[i]);
            } else {
                assert(r[i] == b[i - a.len()]);
            }
        }
        assert forall|i: int, j: int|
            0 <= i < r.len() && r[i] is Unchanged && 0 <= j < r[i]->Unchanged_0.len() implies #[trigger] r[i]->Unchanged_0[j].new_line >= 1 by {
            if i < a.len() {
                assert(r[i] == a[i]);
            } else {
                assert(r[i] == b[i - a.len()]);
            }
        }
    }
}

/// The body diff of any two texts is numbered, so its hunks can be computed.
pub proof fn lemma_body_numbered(old: Seq<char>, new: Seq<char>)
    requires
        crate::diff::source_lines(old).len() <= usize::MAX,
        crate::diff::source_lines(new).len() <= usize::MAX,
    ensures
        numbered(crate::diff::body_model(old, new)),
{
    let ol = crate::diff::source_lines(old);
    let nl = crate::diff::source_lines(new);
    let a = crate::diff::line_keys(ol);
    let b = crate::diff::line_keys(nl);
    let ops = script(a, b, 0, 0);
    lemma_script_aligns(a, b, 0, 0);
    assert forall|k: int| 0 <= k < ops.len() implies match #[trigger] ops[k] {
        DiffOp::Same(_, j) => j < nl.len(),
        DiffOp::Insert(j) => j < nl.len(),
        DiffOp::Delete(_) => true,
    } by {
        lemma_insert_indexed(ops, k);
        if let DiffOp::Insert(j) = ops[k] {
            let t = choose|t: int| 0 <= t < new_indices(ops).len() && new_indices(ops)[t] == j as int;
            assert(range_seq(0, b.len() as int)[t] == t);
        }
        if let DiffOp::Same(_, j) = ops[k] {
            let t = choose|t: int| 0 <= t < new_indices(ops).len() && new_indices(ops)[t] == j as int;
            assert(range_seq(0, b.len() as int)[t] == t);
        }
    }
    lemma_segments_below(ops, nl.len() as int);
    lemma_lines_upto_numbered(split_nl(new), split_nl(new).len() as int);
    lemma_render_numbered(crate::diff::segments(ops), ol, nl);
}

proof fn lemma_split_nl_len(s: Seq<char>)
    ensures
        split_nl(s).len() <= s.len() + 1,
    decreases s.len(),
{
    if s.len() > 0 {
        lemma_split_nl_len(s.drop_last());
        crate::text::lemma_split_nl_nonempty(s.drop_last());
        let prev = split_nl(s.drop_last());
        if s.last() == '\n' {
            assert(split_nl(s) == prev.push(seq![]));
        } else {
            assert(split_nl(s) == prev.update(prev.len() - 1, prev.last().push(s.last())));
        }
    }
}

proof fn lemma_lines_upto_len(ps: Seq<Seq<char>>, k: int)
    requires
        k >= 0,
    ensures
        crate::diff::lines_upto(ps, k).len() <= k,
    decreases k,
{
    if k > 0 {
        lemma_lines_upto_len(ps, k - 1);
    }
}

/// The body diff of two texts and its hunks, in one go; each hunk can be
/// reverted.
pub fn diff_hunks(old: &str, new: &str) -> (r: (BodyDiff, Vec<Hunk>))
    requires
        old@.len() < usize::MAX,
        new@.len() < usize::MAX,
    ensures
        r.0.model() == crate::diff::body_model(old@, new@),
        hunks_of(r.1@) == hunks_model(r.0.model(), line_total(new@)),
        forall|i: int| 0 <= i < r.1.len() ==> (#[trigger] r.1@[i]).wf(),
        forall|i: int| 0 <= i < r.1.len() ==> revert_defined((#[trigger] r.1@[i]).model(), old@, new@),
{
    let body = crate::diff::body_diff(old, new);
    proof {
        lemma_split_nl_len(old@);
        lemma_split_nl_len(new@);
        lemma_lines_upto_len(split_nl(old@), split_nl(old@).len() as int);
        lemma_lines_upto_len(split_nl(new@), split_nl(new@).len() as int);
        lemma_body_numbered(old@, new@);
    }
    let hs = hunks(&body, new);
    proof {
        crate::hunk_order::lemma_hunks_revertible(old@, new@, line_total(new@));
        assert forall|i: int| 0 <= i < hs.len() implies revert_defined((#[trigger] hs@[i]).model(), old@, new@) by {
            assert(hunks_of(hs@)[i] == hs@[i].model());
        }
    }
    (body, hs)
}

} // verus!
