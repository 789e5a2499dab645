//! Version comparison engine: a paragraph-level diff of the body text with
//! character-level highlighting inside rewritten paragraphs, and field-by-field
//! comparison of document elements and global settings.
//!
//! The body diff runs in three steps. The text is cut into non-blank lines (a
//! paragraph of an official document is one line; blank lines only separate
//! and take no part in the comparison). The line sequences are aligned by a
//! longest common subsequence, and each run of deletions and insertions between
//! two kept stretches is paired index by index into rewrites when the two lines
//! have the same role and are similar enough. Only paired lines get a
//! token-level comparison that marks the characters actually changed.

use crate::lcs::{lcs_ops, lemma_script_aligns, new_indices, old_indices, range_seq, script, DiffOp};
use crate::models::{
    all_kinds, is_blank_profile, ExportConfig, LmStudioConfig, SecurityRules, joint_label, kind_label, profile_of, scope_label, style_label, version_label, AppConfig,
    CorrespondenceScope, DraftInput, JointContact, JointIssuanceMode, LetterVersion, StyleMode, TemplateKind,
    TemplateProfile, VersionRecord, VocabularyCategory,
    VocabularyEntry,
};
use crate::text::{
    decimal, decimal_digits, chars_of, copy_range, join_strings, join_text, strings_model, push_chars, push_str, lemma_byte_len_ge_len, str_bytes_fit,
    alnum_end, digit_run, has_prefix1, has_prefix2, is_alnum, is_ascii_alnum, is_ascii_digit, is_digit,
    lemma_alnum_end, lemma_digit_run_bound, starts_with, string_of, trim_start, byte_len, char_width, is_blank, lemma_byte_len_concat,
    lemma_trim_empty_iff_blank, split_nl, strip_cr, trim, trim_bounds,
};
use std::ops::Range;
use vstd::multiset::Multiset;
use vstd::prelude::*;

verus! {

/// Kind of a character-level piece: unchanged, removed from the old text, or
/// added in the new one.
#[derive(Debug, Clone, Copy, PartialEq, Eq, Structural)]
pub enum SpanKind {
    Same,
    Removed,
    Added,
}

/// One contiguous piece inside a line; neighbours of the same kind are merged.
#[derive(Debug, Clone, PartialEq, Eq)]
pub struct InlineSpan {
    pub kind: SpanKind,
    pub text: String,
}

/// Kind of a line-level change.
#[derive(Debug, Clone, Copy, PartialEq, Eq, Structural)]
pub enum ChangeKind {
    /// A line only the new version has.
    Insert,
    /// A line only the old version has.
    Delete,
    /// The same line rewritten; the spans mark the difference.
    Replace,
}

/// Role of a line in Markdown: shown in change lists, and a heading is never
/// paired with a paragraph.
#[derive(Debug, Clone, Copy, PartialEq, Eq, Structural)]
pub enum BlockRole {
    Heading,
    TableRow,
    ListItem,
    Paragraph,
}

pub open spec fn role_label(role: BlockRole) -> Seq<char> {
    match role {
        BlockRole::Heading => "标题"@,
        BlockRole::TableRow => "表格行"@,
        BlockRole::ListItem => "列表项"@,
        BlockRole::Paragraph => "正文段"@,
    }
}

impl BlockRole {
    pub fn label(self) -> (r: &'static str)
        ensures
            r@ == role_label(self),
    {
        match self {
            BlockRole::Heading => "标题",
            BlockRole::TableRow => "表格行",
            BlockRole::ListItem => "列表项",
            BlockRole::Paragraph => "正文段",
        }
    }
}

/// One line-level change.
#[derive(Debug, Clone)]
pub struct BlockChange {
    pub kind: ChangeKind,
    /// Old line number (1-based); 0 for `Insert`.
    pub old_line: usize,
    /// New line number (1-based); 0 for `Delete`.
    pub new_line: usize,
    /// Old side pieces (`Same` + `Removed`); empty for `Insert`.
    pub before_spans: Vec<InlineSpan>,
    /// New side pieces (`Same` + `Added`); empty for `Delete`.
    pub after_spans: Vec<InlineSpan>,
    /// Byte range of the line in the new text, for jumping to the source; a
    /// deleted line has no place in the new text.
    pub new_range: Option<Range<usize>>,
    pub role: BlockRole,
}

/// An unchanged line, shown as it is when a folded stretch is opened.
#[derive(Debug, Clone)]
pub struct ContextBlock {
    /// Line number in the old text (1-based).
    pub old_line: usize,
    /// Line number in the new text (1-based).
    pub new_line: usize,
    pub text: String,
    /// Byte range of the line in the new text.
    pub new_range: Range<usize>,
}

/// One item of the body diff: a stretch of unchanged lines, or one change.
#[derive(Debug, Clone)]
pub enum DiffBlock {
    Unchanged(Vec<ContextBlock>),
    Changed(BlockChange),
}

/// Result of the body diff.
#[derive(Debug, Clone, Default)]
pub struct BodyDiff {
    pub blocks: Vec<DiffBlock>,
    pub changed_count: usize,
}

// ---------------------------------------------------------------------------
// Mathematical model of the results.

pub type SpanModel = (SpanKind, Seq<char>);

pub struct ChangeModel {
    pub kind: ChangeKind,
    pub old_line: nat,
    pub new_line: nat,
    pub before: Seq<SpanModel>,
    pub after: Seq<SpanModel>,
    pub new_range: Option<(nat, nat)>,
    pub role: BlockRole,
}

pub struct ContextModel {
    pub old_line: nat,
    pub new_line: nat,
    pub text: Seq<char>,
    pub range: (nat, nat),
}

pub enum BlockModel {
    Unchanged(Seq<ContextModel>),
    Changed(ChangeModel),
}

pub open spec fn spans_model(spans: Seq<InlineSpan>) -> Seq<SpanModel> {
    spans.map_values(|s: InlineSpan| (s.kind, s.text@))
}

pub open spec fn range_model(r: Range<usize>) -> (nat, nat) {
    (r.start as nat, r.end as nat)
}

impl BlockChange {
    pub open spec fn model(&self) -> ChangeModel {
        ChangeModel {
            kind: self.kind,
            old_line: self.old_line as nat,
            new_line: self.new_line as nat,
            before: spans_model(self.before_spans@),
            after: spans_model(self.after_spans@),
            new_range: match self.new_range {
                Some(r) => Some(range_model(r)),
                None => None,
            },
            role: self.role,
        }
    }
}

impl ContextBlock {
    pub open spec fn model(&self) -> ContextModel {
        ContextModel {
            old_line: self.old_line as nat,
            new_line: self.new_line as nat,
            text: self.text@,
            range: range_model(self.new_range),
        }
    }
}

pub open spec fn contexts_model(cs: Seq<ContextBlock>) -> Seq<ContextModel> {
    cs.map_values(|c: ContextBlock| c.model())
}

impl DiffBlock {
    pub open spec fn model(&self) -> BlockModel {
        match self {
            DiffBlock::Unchanged(cs) => BlockModel::Unchanged(contexts_model(cs@)),
            DiffBlock::Changed(c) => BlockModel::Changed(c.model()),
        }
    }
}

pub open spec fn blocks_model(bs: Seq<DiffBlock>) -> Seq<BlockModel> {
    bs.map_values(|b: DiffBlock| b.model())
}

/// Number of changes among the items.
pub open spec fn count_changed(bs: Seq<BlockModel>) -> nat
    decreases bs.len(),
{
    if bs.len() == 0 {
        0
    } else {
        count_changed(bs.drop_last()) + if bs.last() is Changed {
            1nat
        } else {
            0nat
        }
    }
}

impl BodyDiff {
    pub open spec fn model(&self) -> Seq<BlockModel> {
        blocks_model(self.blocks@)
    }

    pub fn is_empty(&self) -> (r: bool)
        ensures
            r == (self.changed_count == 0),
    {
        self.changed_count == 0
    }
}

// ---------------------------------------------------------------------------
// Source lines.

/// A non-blank source line: its text (without a trailing `'\r'`), its 1-based
/// line number and its byte range in the whole text.
pub struct SourceLine {
    pub text: Seq<char>,
    pub line: nat,
    pub start: nat,
    pub end: nat,
}

/// Byte offset at which piece `k` of `ps` starts, each piece followed by one
/// `'\n'`.
pub open spec fn piece_start(ps: Seq<Seq<char>>, k: int) -> nat
    decreases k,
{
    if k <= 0 {
        0
    } else {
        piece_start(ps, k - 1) + byte_len(ps[k - 1]) + 1
    }
}

/// The non-blank lines among the first `k` pieces.
pub open spec fn lines_upto(ps: Seq<Seq<char>>, k: int) -> Seq<SourceLine>
    decreases k,
{
    if k <= 0 {
        seq![]
    } else {
        let prev = lines_upto(ps, k - 1);
        let text = strip_cr(ps[k - 1]);
        if is_blank(text) {
            prev
        } else {
            let start = piece_start(ps, k - 1);
            prev.push(SourceLine { text, line: k as nat, start, end: start + byte_len(text) })
        }
    }
}

/// The non-blank lines of a text, the units of the body diff.
pub open spec fn source_lines(s: Seq<char>) -> Seq<SourceLine> {
    lines_upto(split_nl(s), split_nl(s).len() as int)
}

/// What two lines are compared by: the trimmed text.
pub open spec fn line_keys(ls: Seq<SourceLine>) -> Seq<Seq<char>> {
    ls.map_values(|l: SourceLine| trim(l.text))
}

/// A non-blank source line as it is held while diffing.
struct Block {
    text: Vec<char>,
    line: usize,
    start: usize,
    end: usize,
}

impl Block {
    spec fn model(&self) -> SourceLine {
        SourceLine {
            text: self.text@,
            line: self.line as nat,
            start: self.start as nat,
            end: self.end as nat,
        }
    }
}

spec fn blocks_of(bs: Seq<Block>) -> Seq<SourceLine> {
    bs.map_values(|b: Block| b.model())
}

pub proof fn lemma_piece_start_prefix(ps: Seq<Seq<char>>, qs: Seq<Seq<char>>, k: int)
    requires
        0 <= k <= ps.len(),
        k <= qs.len(),
        forall|t: int| 0 <= t < k ==> ps[t] == qs[t],
    ensures
        piece_start(ps, k) == piece_start(qs, k),
    decreases k,
{
    if k > 0 {
        lemma_piece_start_prefix(ps, qs, k - 1);
    }
}

proof fn lemma_lines_upto_prefix(ps: Seq<Seq<char>>, qs: Seq<Seq<char>>, k: int)
    requires
        0 <= k <= ps.len(),
        k <= qs.len(),
        forall|t: int| 0 <= t < k ==> ps[t] == qs[t],
    ensures
        lines_upto(ps, k) == lines_upto(qs, k),
    decreases k,
{
    if k > 0 {
        lemma_lines_upto_prefix(ps, qs, k - 1);
        lemma_piece_start_prefix(ps, qs, k - 1);
    }
}

/// Cut the text into its non-blank lines.
fn split_blocks(text: &Vec<char>) -> (out: Vec<Block>)
    requires
        byte_len(text@) <= usize::MAX,
    ensures
        blocks_of(out@) == source_lines(text@),
        2 * out.len() <= text.len() + 1,
{
    let n = text.len();
    let ghost s = text@;
    let mut out: Vec<Block> = Vec::new();
    let mut index: usize = 0;
    let mut piece: usize = 0;
    let mut byte_start: usize = 0;
    let mut byte_pos: usize = 0;
    let mut p: usize = 0;
    proof {
        assert(s.take(0) =~= Seq::<char>::empty());
    }
    loop
        invariant
            n == text.len(),
            s == text@,
            byte_len(s) <= usize::MAX,
            piece <= p <= n,
            index <= piece,
            2 * out.len() <= piece,
            split_nl(s.take(p as int)).len() == index + 1,
            split_nl(s.take(p as int)).last() == s.subrange(piece as int, p as int),
            byte_start == piece_start(split_nl(s.take(p as int)), index as int),
            byte_pos == byte_start + byte_len(s.subrange(piece as int, p as int)),
            byte_pos == byte_len(s.take(p as int)),
            blocks_of(out@) == lines_upto(split_nl(s.take(p as int)), index as int),
        decreases n - p,
    {
        let ghost ps = split_nl(s.take(p as int));
        if p == n || text[p] == '\n' {
            // close the piece text[piece..p]
            let line_end = if p > piece && text[p - 1] == '\r' {
                p - 1
            } else {
                p
            };
            let ghost raw = s.subrange(piece as int, p as int);
            let ghost line = strip_cr(raw);
            assert(line == s.subrange(piece as int, line_end as int));
            let line_bytes = if line_end < p {
                proof {
                    lemma_byte_len_concat(line, seq!['\r']);
                    assert(raw =~= line + seq!['\r']);
                    assert(byte_len(seq!['\r']) == 1) by {
                        assert(seq!['\r'].drop_last() =~= Seq::<char>::empty());
                    }
                }
                byte_pos - byte_start - 1
            } else {
                byte_pos - byte_start
            };
            assert(line_bytes == byte_len(line));
            let (l, h) = trim_bounds(text, piece, line_end);
            proof {
                lemma_trim_empty_iff_blank(line);
            }
            let ghost next_ps = ps;
            proof {
                // the closed piece is piece `index` of every longer prefix
                assert(lines_upto(ps.push(seq![]), index + 1) == {
                    let prev = lines_upto(ps.push(seq![]), index as int);
                    if is_blank(line) {
                        prev
                    } else {
                        prev.push(
                            SourceLine {
                                text: line,
                                line: (index + 1) as nat,
                                start: piece_start(ps.push(seq![]), index as int),
                                end: piece_start(ps.push(seq![]), index as int) + byte_len(line),
                            },
                        )
                    }
                });
                lemma_lines_upto_prefix(ps, ps.push(seq![]), index as int);
                lemma_piece_start_prefix(ps, ps.push(seq![]), index as int);
            }
            if l < h {
                let piece_text = copy_range(text, piece, line_end);
                out.push(
                    Block {
                        text: piece_text,
                        line: index + 1,
                        start: byte_start,
                        end: byte_start + line_bytes,
                    },
                );
            }
            if p == n {
                assert(s.take(n as int) =~= s);
                assert(blocks_of(out@) =~= lines_upto(ps, index + 1)) by {
                    lemma_lines_upto_prefix(ps, ps.push(seq![]), index as int);
                    lemma_piece_start_prefix(ps, ps.push(seq![]), index as int);
                    assert(ps[index as int] == raw);
                }
                return out;
            }
            proof {
                let ps2 = split_nl(s.take(p + 1));
                assert(s.take(p + 1).drop_last() =~= s.take(p as int));
                assert(ps2 == ps.push(seq![]));
                lemma_byte_len_concat(s.take(p as int), seq!['\n']);
                assert(s.take(p + 1) =~= s.take(p as int) + seq!['\n']);
                assert(byte_len(seq!['\n']) == 1) by {
                    assert(seq!['\n'].drop_last() =~= Seq::<char>::empty());
                }
                assert(ps2[index as int] == raw);
                assert(blocks_of(out@) =~= lines_upto(ps2, index + 1));
                assert(s.subrange(p + 1, p + 1) =~= Seq::<char>::empty());
                lemma_byte_len_concat(s.take(p + 1), s.skip(p + 1));
                assert(s.take(p + 1) + s.skip(p + 1) =~= s);
            }
            index += 1;
            byte_pos += 1;
            p += 1;
            piece = p;
            byte_start = byte_pos;
        } else {
            let w = char_width(text[p]);
            proof {
                let ps2 = split_nl(s.take(p + 1));
                assert(s.take(p + 1).drop_last() =~= s.take(p as int));
                assert(s.take(p + 1).last() == text@[p as int]);
                assert(ps2 == ps.update(index as int, ps[index as int].push(text@[p as int])));
                assert(s.subrange(piece as int, p + 1) =~= s.subrange(piece as int, p as int).push(
                    text@[p as int],
                ));
                assert(s.subrange(piece as int, p + 1).drop_last() =~= s.subrange(piece as int, p as int));
                lemma_piece_start_prefix(ps, ps2, index as int);
                lemma_lines_upto_prefix(ps, ps2, index as int);
                assert(s.take(p + 1) =~= s.take(p as int) + seq![text@[p as int]]);
                lemma_byte_len_concat(s.take(p as int), seq![text@[p as int]]);
                assert(seq![text@[p as int]].drop_last() =~= Seq::<char>::empty());
                lemma_byte_len_concat(s.take(p + 1), s.skip(p + 1));
                assert(s.take(p + 1) + s.skip(p + 1) =~= s);
            }
            byte_pos += w;
            p += 1;
        }
    }
}

// ---------------------------------------------------------------------------
// Line roles.

/// `1. ` / `12) ` style ordered list item.
pub open spec fn is_ordered_item(t: Seq<char>) -> bool {
    let k = digit_run(t) as int;
    k > 0 && (starts_with(t.skip(k), seq!['.', ' ']) || starts_with(t.skip(k), seq![')', ' ']))
}

/// The Markdown role of a line.
pub open spec fn role_of(text: Seq<char>) -> BlockRole {
    let t = trim_start(text);
    if starts_with(t, seq!['#']) {
        BlockRole::Heading
    } else if starts_with(t, seq!['|']) {
        BlockRole::TableRow
    } else if starts_with(t, seq!['-', ' ']) || starts_with(t, seq!['*', ' ']) || is_ordered_item(
        t,
    ) {
        BlockRole::ListItem
    } else {
        BlockRole::Paragraph
    }
}

/// Whether `text[at..hi]` is an ordered list item.
fn ordered_item(text: &Vec<char>, at: usize, hi: usize) -> (r: bool)
    requires
        at <= hi <= text.len(),
    ensures
        r == is_ordered_item(text@.subrange(at as int, hi as int)),
{
    let ghost t = text@.subrange(at as int, hi as int);
    let mut k = at;
    while k < hi && is_ascii_digit(text[k])
        invariant
            at <= k <= hi <= text.len(),
            forall|x: int| at <= x < k ==> is_digit(#[trigger] text@[x]),
        decreases hi - k,
    {
        k += 1;
    }
    proof {
        lemma_digit_run_bound(t);
        // the digit run of t ends exactly at k - at
        assert(digit_run(t) == (k - at)) by {
            lemma_digit_run_exact(t, (k - at) as int);
        }
        assert(t.skip(k - at) =~= text@.subrange(k as int, hi as int));
    }
    if k == at {
        return false;
    }
    has_prefix2(text, k, hi, '.', ' ') || has_prefix2(text, k, hi, ')', ' ')
}

proof fn lemma_digit_run_exact(t: Seq<char>, k: int)
    requires
        0 <= k <= t.len(),
        forall|x: int| 0 <= x < k ==> is_digit(#[trigger] t[x]),
        k < t.len() ==> !is_digit(t[k]),
    ensures
        digit_run(t) == k,
    decreases k,
{
    if k > 0 {
        assert forall|x: int| 0 <= x < k - 1 implies is_digit(#[trigger] t.drop_first()[x]) by {
            assert(t.drop_first()[x] == t[x + 1]);
        }
        if k - 1 < t.drop_first().len() {
            assert(t.drop_first()[k - 1] == t[k]);
        }
        lemma_digit_run_exact(t.drop_first(), k - 1);
    }
}

/// The role of a line.
fn block_role(text: &Vec<char>) -> (r: BlockRole)
    ensures
        r == role_of(text@),
{
    let (l, _) = trim_bounds(text, 0, text.len());
    let n = text.len();
    assert(text@.subrange(0, n as int) =~= text@);
    if has_prefix1(text, l, n, '#') {
        BlockRole::Heading
    } else if has_prefix1(text, l, n, '|') {
        BlockRole::TableRow
    } else if has_prefix2(text, l, n, '-', ' ') || has_prefix2(text, l, n, '*', ' ')
        || ordered_item(text, l, n) {
        BlockRole::ListItem
    } else {
        BlockRole::Paragraph
    }
}

// ---------------------------------------------------------------------------
// Character-level comparison.

/// The tokens of `s[i..]`: a run of ASCII letters and digits is one token
/// (`2026` is not four changes), every other character is a token of its own.
pub open spec fn tokens_from(s: Seq<char>, i: int) -> Seq<Seq<char>>
    decreases s.len() - i,
{
    if i < 0 || i >= s.len() {
        seq![]
    } else {
        let e = if is_alnum(s[i]) {
            alnum_end(s, i + 1)
        } else {
            i + 1
        };
        if e <= i || e > s.len() {
            seq![]
        } else {
            seq![s.subrange(i, e)] + tokens_from(s, e)
        }
    }
}

pub open spec fn tokens(s: Seq<char>) -> Seq<Seq<char>> {
    tokens_from(s, 0)
}

/// Cut a line into tokens.
fn tokenize_chars(text: &Vec<char>) -> (out: Vec<Vec<char>>)
    ensures
        out.deep_view() == tokens(text@),
{
    let n = text.len();
    let mut out: Vec<Vec<char>> = Vec::new();
    let mut index: usize = 0;
    while index < n
        invariant
            n == text.len(),
            index <= n,
            out.deep_view() + tokens_from(text@, index as int) == tokens(text@),
        decreases n - index,
    {
        let start = index;
        if is_ascii_alnum(text[index]) {
            index += 1;
            while index < n && is_ascii_alnum(text[index])
                invariant
                    n == text.len(),
                    start < index <= n,
                    alnum_end(text@, index as int) == alnum_end(text@, start + 1),
                decreases n - index,
            {
                index += 1;
            }
        } else {
            index += 1;
        }
        let ghost before = out.deep_view();
        proof {
            lemma_alnum_end(text@, start + 1);
        }
        let token = copy_range(text, start, index);
        assert(token.deep_view() =~= token@);
        let ghost before_vec = out@;
        out.push(token);
        assert(out.deep_view() =~= before.push(text@.subrange(start as int, index as int))) by {
            assert forall|t: int| 0 <= t < out.len() implies out.deep_view()[t] == before.push(
                text@.subrange(start as int, index as int),
            )[t] by {
                if t < out.len() - 1 {
                    assert(out@[t] == before_vec[t]);
                }
            }
        }
        assert(tokens_from(text@, start as int) == seq![text@.subrange(start as int, index as int)]
            + tokens_from(text@, index as int));
        assert(out.deep_view() + tokens_from(text@, index as int) =~= before + tokens_from(
            text@,
            start as int,
        ));
    }
    assert(tokens_from(text@, n as int) =~= Seq::<Seq<char>>::empty());
    assert(out.deep_view() =~= out.deep_view() + tokens_from(text@, n as int));
    out
}

/// Append a piece, merging it into the last one when the kinds agree.
pub open spec fn push_merge(spans: Seq<SpanModel>, kind: SpanKind, text: Seq<char>) -> Seq<SpanModel> {
    if spans.len() > 0 && spans.last().0 == kind {
        spans.update(spans.len() - 1, (kind, spans.last().1 + text))
    } else {
        spans.push((kind, text))
    }
}

fn push_span(out: &mut Vec<InlineSpan>, kind: SpanKind, text: &Vec<char>)
    ensures
        spans_model(final(out)@) == push_merge(spans_model(old(out)@), kind, text@),
{
    let ghost before = spans_model(out@);
    if out.len() > 0 && out[out.len() - 1].kind == kind {
        let mut last = out.pop().unwrap();
        push_chars(&mut last.text, text);
        out.push(last);
        assert(spans_model(out@) =~= push_merge(before, kind, text@));
        return;
    }
    out.push(InlineSpan { kind, text: string_of(text) });
    assert(spans_model(out@) =~= push_merge(before, kind, text@));
}

/// Old-side pieces of an edit script over tokens.
pub open spec fn spans_before(ops: Seq<DiffOp>, ta: Seq<Seq<char>>) -> Seq<SpanModel>
    decreases ops.len(),
{
    if ops.len() == 0 {
        seq![]
    } else {
        let prev = spans_before(ops.drop_last(), ta);
        match ops.last() {
            DiffOp::Same(i, _) => push_merge(prev, SpanKind::Same, ta[i as int]),
            DiffOp::Delete(i) => push_merge(prev, SpanKind::Removed, ta[i as int]),
            DiffOp::Insert(_) => prev,
        }
    }
}

/// New-side pieces of an edit script over tokens.
pub open spec fn spans_after(ops: Seq<DiffOp>, tb: Seq<Seq<char>>) -> Seq<SpanModel>
    decreases ops.len(),
{
    if ops.len() == 0 {
        seq![]
    } else {
        let prev = spans_after(ops.drop_last(), tb);
        match ops.last() {
            DiffOp::Same(_, j) => push_merge(prev, SpanKind::Same, tb[j as int]),
            DiffOp::Insert(j) => push_merge(prev, SpanKind::Added, tb[j as int]),
            DiffOp::Delete(_) => prev,
        }
    }
}

/// Largest product of the token counts of two lines that still gets a
/// character-level comparison; beyond it the line is shown as replaced whole.
pub const INLINE_TOKEN_BUDGET: usize = 400_000;

/// Character-level pieces of a rewritten line, old side and new side.
pub open spec fn inline_model(before: Seq<char>, after: Seq<char>) -> (Seq<SpanModel>, Seq<SpanModel>) {
    let ta = tokens(before);
    let tb = tokens(after);
    if ta.len() * tb.len() > INLINE_TOKEN_BUDGET {
        (seq![(SpanKind::Removed, before)], seq![(SpanKind::Added, after)])
    } else {
        let ops = script(ta, tb, 0, 0);
        (spans_before(ops, ta), spans_after(ops, tb))
    }
}

fn inline_spans_chars(before: &Vec<char>, after: &Vec<char>) -> (r: (Vec<InlineSpan>, Vec<InlineSpan>))
    ensures
        (spans_model(r.0@), spans_model(r.1@)) == inline_model(before@, after@),
{
    let a = tokenize_chars(before);
    let b = tokenize_chars(after);
    if a.len().checked_mul(b.len()).is_none() || a.len() * b.len() > INLINE_TOKEN_BUDGET {
        let r0 = vec![InlineSpan { kind: SpanKind::Removed, text: string_of(before) }];
        let r1 = vec![InlineSpan { kind: SpanKind::Added, text: string_of(after) }];
        assert(spans_model(r0@) =~= seq![(SpanKind::Removed, before@)]);
        assert(spans_model(r1@) =~= seq![(SpanKind::Added, after@)]);
        return (r0, r1);
    }
    proof {
        if a.len() > 0 && b.len() > 0 {
            let x = a.len();
            let y = b.len();
            assert(x * y <= INLINE_TOKEN_BUDGET ==> x <= INLINE_TOKEN_BUDGET && y <= INLINE_TOKEN_BUDGET) by (nonlinear_arith)
                requires x >= 1, y >= 1;
        }
    }
    let ops = lcs_ops(&a, &b);
    let ghost ta = a.deep_view();
    let ghost tb = b.deep_view();
    proof {
        crate::lcs::lemma_script_aligns(ta, tb, 0, 0);
    }
    let mut before_spans: Vec<InlineSpan> = Vec::new();
    let mut after_spans: Vec<InlineSpan> = Vec::new();
    let mut k: usize = 0;
    while k < ops.len()
        invariant
            0 <= k <= ops.len(),
            ta == a.deep_view(),
            tb == b.deep_view(),
            ops@ == script(ta, tb, 0, 0),
            crate::lcs::pairs_equal(ta, tb, ops@),
            crate::lcs::old_indices(ops@) == crate::lcs::range_seq(0, ta.len() as int),
            crate::lcs::new_indices(ops@) == crate::lcs::range_seq(0, tb.len() as int),
            spans_model(before_spans@) == spans_before(ops@.take(k as int), ta),
            spans_model(after_spans@) == spans_after(ops@.take(k as int), tb),
        decreases ops.len() - k,
    {
        proof {
            assert(ops@.take(k + 1).drop_last() =~= ops@.take(k as int));
            assert(ops@.take(k + 1).last() == ops@[k as int]);
            lemma_op_in_range(ops@, k as int, ta.len() as int, tb.len() as int);
        }
        match ops[k] {
            DiffOp::Same(i, j) => {
                assert(ta[i as int] == a@[i as int]@);
                assert(tb[j as int] == b@[j as int]@);
                push_span(&mut before_spans, SpanKind::Same, &a[i]);
                push_span(&mut after_spans, SpanKind::Same, &b[j]);
            },
            DiffOp::Delete(i) => {
                assert(ta[i as int] == a@[i as int]@);
                push_span(&mut before_spans, SpanKind::Removed, &a[i]);
            },
            DiffOp::Insert(j) => {
                assert(tb[j as int] == b@[j as int]@);
                push_span(&mut after_spans, SpanKind::Added, &b[j]);
            },
        }
        k += 1;
    }
    assert(ops@.take(ops.len() as int) =~= ops@);
    (before_spans, after_spans)
}

/// The tokens of a line, each as a string: a run of ASCII letters and digits
/// is one token, every other character a token of its own.
pub fn tokenize(text: &str) -> (out: Vec<String>)
    ensures
        strings_model(out@) == tokens(text@),
{
    let chars = chars_of(text);
    let toks = tokenize_chars(&chars);
    let mut out: Vec<String> = Vec::new();
    let mut i: usize = 0;
    while i < toks.len()
        invariant
            0 <= i <= toks.len(),
            toks.deep_view() == tokens(text@),
            out.len() == i,
            strings_model(out@) == toks.deep_view().take(i as int),
        decreases toks.len() - i,
    {
        let piece = string_of(&toks[i]);
        assert(toks.deep_view()[i as int] == toks@[i as int]@);
        let ghost prev = out@;
        out.push(piece);
        assert(strings_model(out@) =~= toks.deep_view().take(i + 1)) by {
            assert forall|t: int| 0 <= t < out.len() implies strings_model(out@)[t]
                == toks.deep_view().take(i + 1)[t] by {
                if t < i {
                    assert(out@[t] == prev[t]);
                    assert(strings_model(prev)[t] == toks.deep_view().take(i as int)[t]);
                }
            }
        }
        i += 1;
    }
    assert(toks.deep_view().take(toks.len() as int) =~= toks.deep_view());
    out
}

/// Character-level pieces of a rewritten line, old side and new side: the
/// tokens both sides keep are `Same`, the others `Removed` before and `Added`
/// after.
pub fn inline_spans(before: &str, after: &str) -> (r: (Vec<InlineSpan>, Vec<InlineSpan>))
    ensures
        (spans_model(r.0@), spans_model(r.1@)) == inline_model(before@, after@),
{
    let b = chars_of(before);
    let a = chars_of(after);
    inline_spans_chars(&b, &a)
}

/// Every index an edit script names lies inside its sequence.
proof fn lemma_op_in_range(ops: Seq<DiffOp>, k: int, n: int, m: int)
    requires
        0 <= k < ops.len(),
        n >= 0,
        m >= 0,
        crate::lcs::old_indices(ops) == crate::lcs::range_seq(0, n),
        crate::lcs::new_indices(ops) == crate::lcs::range_seq(0, m),
    ensures
        match ops[k] {
            DiffOp::Same(i, j) => i < n && j < m,
            DiffOp::Delete(i) => i < n,
            DiffOp::Insert(j) => j < m,
        },
{
    lemma_indices_contain(ops, k);
    let oi = crate::lcs::old_indices(ops);
    let ni = crate::lcs::new_indices(ops);
    match ops[k] {
        DiffOp::Same(i, j) => {
            let x = choose|x: int| 0 <= x < oi.len() && oi[x] == i as int;
            let y = choose|y: int| 0 <= y < ni.len() && ni[y] == j as int;
            assert(oi[x] == x);
            assert(ni[y] == y);
        },
        DiffOp::Delete(i) => {
            let x = choose|x: int| 0 <= x < oi.len() && oi[x] == i as int;
            assert(oi[x] == x);
        },
        DiffOp::Insert(j) => {
            let y = choose|y: int| 0 <= y < ni.len() && ni[y] == j as int;
            assert(ni[y] == y);
        },
    }
}

proof fn lemma_indices_contain(ops: Seq<DiffOp>, k: int)
    requires
        0 <= k < ops.len(),
    ensures
        match ops[k] {
            DiffOp::Same(i, j) => crate::lcs::old_indices(ops).contains(i as int)
                && crate::lcs::new_indices(ops).contains(j as int),
            DiffOp::Delete(i) => crate::lcs::old_indices(ops).contains(i as int),
            DiffOp::Insert(j) => crate::lcs::new_indices(ops).contains(j as int),
        },
    decreases ops.len(),
{
    let rest = ops.drop_first();
    if k > 0 {
        lemma_indices_contain(rest, k - 1);
        assert(ops[k] == rest[k - 1]);
        let oi = crate::lcs::old_indices(ops);
        let ni = crate::lcs::new_indices(ops);
        match ops[k] {
            DiffOp::Same(i, j) => {
                let x = choose|x: int| 0 <= x < crate::lcs::old_indices(rest).len() && crate::lcs::old_indices(rest)[x] == i as int;
                let y = choose|y: int| 0 <= y < crate::lcs::new_indices(rest).len() && crate::lcs::new_indices(rest)[y] == j as int;
                match ops[0] {
                    DiffOp::Same(_, _) => { assert(oi[x + 1] == i as int); assert(ni[y + 1] == j as int); },
                    DiffOp::Delete(_) => { assert(oi[x + 1] == i as int); assert(ni[y] == j as int); },
                    DiffOp::Insert(_) => { assert(oi[x] == i as int); assert(ni[y + 1] == j as int); },
                }
            },
            DiffOp::Delete(i) => {
                let x = choose|x: int| 0 <= x < crate::lcs::old_indices(rest).len() && crate::lcs::old_indices(rest)[x] == i as int;
                match ops[0] {
                    DiffOp::Insert(_) => { assert(oi[x] == i as int); },
                    _ => { assert(oi[x + 1] == i as int); },
                }
            },
            DiffOp::Insert(j) => {
                let y = choose|y: int| 0 <= y < crate::lcs::new_indices(rest).len() && crate::lcs::new_indices(rest)[y] == j as int;
                match ops[0] {
                    DiffOp::Delete(_) => { assert(ni[y] == j as int); },
                    _ => { assert(ni[y + 1] == j as int); },
                }
            },
        }
    } else {
        let oi = crate::lcs::old_indices(ops);
        let ni = crate::lcs::new_indices(ops);
        match ops[0] {
            DiffOp::Same(i, j) => { assert(oi[0] == i as int); assert(ni[0] == j as int); },
            DiffOp::Delete(i) => { assert(oi[0] == i as int); },
            DiffOp::Insert(j) => { assert(ni[0] == j as int); },
        }
    }
}


// ---------------------------------------------------------------------------
// Similarity of two lines.

/// How many characters of `b`, taken in order, can be matched against the
/// characters left in `pool`: the size of the multiset intersection.
pub open spec fn common_count(pool: Multiset<char>, b: Seq<char>) -> nat
    decreases b.len(),
{
    if b.len() == 0 {
        0
    } else if pool.count(b[0]) > 0 {
        1 + common_count(pool.remove(b[0]), b.drop_first())
    } else {
        common_count(pool, b.drop_first())
    }
}

/// Two lines are similar enough to be shown as one rewritten line when the
/// characters they share (as multisets, order ignored) make up at least two
/// fifths of the longer one. Lines rewritten beyond that are shown as one
/// deletion and one insertion: marking them character by character would only
/// give a patchwork of red and green.
pub open spec fn similar(a: Seq<char>, b: Seq<char>) -> bool {
    let longer = if a.len() >= b.len() {
        a.len()
    } else {
        b.len()
    };
    a.len() > 0 && b.len() > 0 && 5 * common_count(a.to_multiset(), b) >= 2 * longer
}

/// Index of the first `c` in `v`.
fn position_of(v: &Vec<char>, c: char) -> (r: Option<usize>)
    ensures
        match r {
            Some(p) => p < v.len() && v@[p as int] == c,
            None => !v@.contains(c),
        },
{
    let mut p: usize = 0;
    while p < v.len()
        invariant
            0 <= p <= v.len(),
            forall|x: int| 0 <= x < p ==> v@[x] != c,
        decreases v.len() - p,
    {
        if v[p] == c {
            return Some(p);
        }
        p += 1;
    }
    None
}

fn similar_enough(a: &Vec<char>, b: &Vec<char>) -> (r: bool)
    ensures
        r == similar(a@, b@),
{
    broadcast use vstd::seq_lib::to_multiset_remove, vstd::seq_lib::to_multiset_contains;

    if a.len() == 0 || b.len() == 0 {
        return false;
    }
    let mut pool = copy_range(a, 0, a.len());
    assert(pool@ =~= a@);
    let mut common: usize = 0;
    let mut k: usize = 0;
    assert(b@.skip(0) =~= b@);
    while k < b.len()
        invariant
            0 <= k <= b.len(),
            common <= k,
            common + common_count(pool@.to_multiset(), b@.skip(k as int)) == common_count(
                a@.to_multiset(),
                b@,
            ),
        decreases b.len() - k,
    {
        let c = b[k];
        let ghost rest = b@.skip(k as int);
        assert(rest[0] == c);
        assert(rest.drop_first() =~= b@.skip(k + 1));
        let ghost ms = pool@.to_multiset();
        proof {
            vstd::seq_lib::to_multiset_contains(pool@, c);
        }
        match position_of(&pool, c) {
            Some(p) => {
                proof {
                    vstd::seq_lib::to_multiset_remove(pool@, p as int);
                    assert(pool@.contains(c));
                }
                let ghost before = pool@;
                pool.remove(p);
                assert(pool@ =~= before.remove(p as int));
                assert(pool@.to_multiset() == ms.remove(c));
                assert(ms.count(c) > 0);
                assert(common_count(ms, rest) == 1 + common_count(ms.remove(c), rest.drop_first()));
                common += 1;
            },
            None => {
                assert(ms.count(c) == 0);
                assert(common_count(ms, rest) == common_count(ms, rest.drop_first()));
            },
        }
        k += 1;
    }
    assert(b@.skip(b.len() as int) =~= Seq::<char>::empty());
    let longer = if a.len() >= b.len() {
        a.len()
    } else {
        b.len()
    };
    (common as u128) * 5 >= (longer as u128) * 2
}

// ---------------------------------------------------------------------------
// Grouping of the line-level edit script.

/// A maximal run of an edit script: kept pairs, or the deletions and
/// insertions between two kept stretches.
pub enum Seg {
    Keep(Seq<(usize, usize)>),
    Edit(Seq<usize>, Seq<usize>),
}

/// The runs of an edit script, in order.
pub open spec fn segments(ops: Seq<DiffOp>) -> Seq<Seg>
    decreases ops.len(),
{
    if ops.len() == 0 {
        seq![]
    } else {
        let prev = segments(ops.drop_last());
        let last = prev.len() - 1;
        match ops.last() {
            DiffOp::Same(i, j) => match prev.last() {
                Seg::Keep(ps) if prev.len() > 0 => prev.update(last, Seg::Keep(ps.push((i, j)))),
                _ => prev.push(Seg::Keep(seq![(i, j)])),
            },
            DiffOp::Delete(i) => match prev.last() {
                Seg::Edit(rs, xs) if prev.len() > 0 => prev.update(last, Seg::Edit(rs.push(i), xs)),
                _ => prev.push(Seg::Edit(seq![i], seq![])),
            },
            DiffOp::Insert(j) => match prev.last() {
                Seg::Edit(rs, xs) if prev.len() > 0 => prev.update(last, Seg::Edit(rs, xs.push(j))),
                _ => prev.push(Seg::Edit(seq![], seq![j])),
            },
        }
    }
}

pub open spec fn context_model(o: SourceLine, n: SourceLine) -> ContextModel {
    ContextModel { old_line: o.line, new_line: n.line, text: n.text, range: (n.start, n.end) }
}

pub open spec fn deleted_model(o: SourceLine) -> ChangeModel {
    ChangeModel {
        kind: ChangeKind::Delete,
        old_line: o.line,
        new_line: 0,
        before: seq![(SpanKind::Removed, o.text)],
        after: seq![],
        new_range: None,
        role: role_of(o.text),
    }
}

pub open spec fn inserted_model(n: SourceLine) -> ChangeModel {
    ChangeModel {
        kind: ChangeKind::Insert,
        old_line: 0,
        new_line: n.line,
        before: seq![],
        after: seq![(SpanKind::Added, n.text)],
        new_range: Some((n.start, n.end)),
        role: role_of(n.text),
    }
}

pub open spec fn replaced_model(o: SourceLine, n: SourceLine) -> ChangeModel {
    let spans = inline_model(o.text, n.text);
    ChangeModel {
        kind: ChangeKind::Replace,
        old_line: o.line,
        new_line: n.line,
        before: spans.0,
        after: spans.1,
        new_range: Some((n.start, n.end)),
        role: role_of(o.text),
    }
}

/// A deleted line and an inserted line at the same place in a run: one
/// rewrite when they have the same role and are similar, otherwise a deletion
/// followed by an insertion.
pub open spec fn pair_model(o: SourceLine, n: SourceLine) -> Seq<BlockModel> {
    if role_of(o.text) == role_of(n.text) && similar(trim(o.text), trim(n.text)) {
        seq![BlockModel::Changed(replaced_model(o, n))]
    } else {
        seq![BlockModel::Changed(deleted_model(o)), BlockModel::Changed(inserted_model(n))]
    }
}

/// The changes of position `t` of a run of deletions `rs` and insertions `xs`.
pub open spec fn edit_step(
    rs: Seq<usize>,
    xs: Seq<usize>,
    ol: Seq<SourceLine>,
    nl: Seq<SourceLine>,
    t: int,
) -> Seq<BlockModel> {
    if t < rs.len() && t < xs.len() {
        pair_model(ol[rs[t] as int], nl[xs[t] as int])
    } else if t < rs.len() {
        seq![BlockModel::Changed(deleted_model(ol[rs[t] as int]))]
    } else if t < xs.len() {
        seq![BlockModel::Changed(inserted_model(nl[xs[t] as int]))]
    } else {
        seq![]
    }
}

/// The changes of the first `k` positions of a run.
pub open spec fn edit_model(
    rs: Seq<usize>,
    xs: Seq<usize>,
    ol: Seq<SourceLine>,
    nl: Seq<SourceLine>,
    k: int,
) -> Seq<BlockModel>
    decreases k,
{
    if k <= 0 {
        seq![]
    } else {
        edit_model(rs, xs, ol, nl, k - 1) + edit_step(rs, xs, ol, nl, k - 1)
    }
}

pub open spec fn max_len(rs: Seq<usize>, xs: Seq<usize>) -> int {
    if rs.len() >= xs.len() {
        rs.len() as int
    } else {
        xs.len() as int
    }
}

pub open spec fn seg_model(seg: Seg, ol: Seq<SourceLine>, nl: Seq<SourceLine>) -> Seq<BlockModel> {
    match seg {
        Seg::Keep(ps) => seq![
            BlockModel::Unchanged(
                ps.map_values(|p: (usize, usize)| context_model(ol[p.0 as int], nl[p.1 as int])),
            ),
        ],
        Seg::Edit(rs, xs) => edit_model(rs, xs, ol, nl, max_len(rs, xs)),
    }
}

pub open spec fn render(segs: Seq<Seg>, ol: Seq<SourceLine>, nl: Seq<SourceLine>) -> Seq<BlockModel>
    decreases segs.len(),
{
    if segs.len() == 0 {
        seq![]
    } else {
        render(segs.drop_last(), ol, nl) + seg_model(segs.last(), ol, nl)
    }
}

/// The body diff of two texts: their non-blank lines aligned by trimmed text,
/// kept stretches folded into context, each run between them paired up.
pub open spec fn body_model(old: Seq<char>, new: Seq<char>) -> Seq<BlockModel> {
    let ol = source_lines(old);
    let nl = source_lines(new);
    render(segments(script(line_keys(ol), line_keys(nl), 0, 0)), ol, nl)
}


// ---------------------------------------------------------------------------
// Building the body diff.

fn deleted_block(block: &Block) -> (r: DiffBlock)
    ensures
        r.model() == BlockModel::Changed(deleted_model(block.model())),
{
    let before_spans = vec![InlineSpan { kind: SpanKind::Removed, text: string_of(&block.text) }];
    let r = DiffBlock::Changed(
        BlockChange {
            kind: ChangeKind::Delete,
            old_line: block.line,
            new_line: 0,
            before_spans,
            after_spans: Vec::new(),
            new_range: None,
            role: block_role(&block.text),
        },
    );
    assert(spans_model(before_spans@) =~= seq![(SpanKind::Removed, block.text@)]);
    assert(spans_model(Seq::<InlineSpan>::empty()) =~= Seq::<SpanModel>::empty());
    r
}

fn inserted_block(block: &Block) -> (r: DiffBlock)
    ensures
        r.model() == BlockModel::Changed(inserted_model(block.model())),
{
    let after_spans = vec![InlineSpan { kind: SpanKind::Added, text: string_of(&block.text) }];
    let r = DiffBlock::Changed(
        BlockChange {
            kind: ChangeKind::Insert,
            old_line: 0,
            new_line: block.line,
            before_spans: Vec::new(),
            after_spans,
            new_range: Some(block.start..block.end),
            role: block_role(&block.text),
        },
    );
    assert(spans_model(after_spans@) =~= seq![(SpanKind::Added, block.text@)]);
    assert(spans_model(Seq::<InlineSpan>::empty()) =~= Seq::<SpanModel>::empty());
    r
}

/// The trimmed texts of the lines, which the alignment compares.
fn block_keys(blocks: &Vec<Block>) -> (keys: Vec<Vec<char>>)
    ensures
        keys.deep_view() == line_keys(blocks_of(blocks@)),
        keys.len() == blocks.len(),
{
    let mut keys: Vec<Vec<char>> = Vec::new();
    let mut k: usize = 0;
    while k < blocks.len()
        invariant
            0 <= k <= blocks.len(),
            keys.len() == k,
            forall|t: int| 0 <= t < k ==> #[trigger] keys@[t]@ == trim(blocks@[t].text@),
        decreases blocks.len() - k,
    {
        let text = &blocks[k].text;
        let (l, h) = trim_bounds(text, 0, text.len());
        assert(text@.subrange(0, text.len() as int) =~= text@);
        keys.push(copy_range(text, l, h));
        k += 1;
    }
    assert(keys.deep_view() =~= line_keys(blocks_of(blocks@))) by {
        assert forall|t: int| 0 <= t < keys.len() implies keys.deep_view()[t] == line_keys(
            blocks_of(blocks@),
        )[t] by {
            assert(keys@[t].deep_view() =~= keys@[t]@);
        }
    }
    keys
}

/// Append the changes of one run of deletions and insertions: the `t`-th
/// deletion pairs with the `t`-th insertion.
fn flush_group(
    blocks: &mut Vec<DiffBlock>,
    removed: &mut Vec<usize>,
    added: &mut Vec<usize>,
    old_blocks: &Vec<Block>,
    new_blocks: &Vec<Block>,
    old_keys: &Vec<Vec<char>>,
    new_keys: &Vec<Vec<char>>,
)
    requires
        forall|t: int| 0 <= t < old(removed).len() ==> #[trigger] old(removed)@[t] < old_blocks.len(),
        forall|t: int| 0 <= t < old(added).len() ==> #[trigger] old(added)@[t] < new_blocks.len(),
        old_keys.deep_view() == line_keys(blocks_of(old_blocks@)),
        new_keys.deep_view() == line_keys(blocks_of(new_blocks@)),
        old_keys.len() == old_blocks.len(),
        new_keys.len() == new_blocks.len(),
    ensures
        blocks_model(final(blocks)@) == blocks_model(old(blocks)@) + edit_model(
            old(removed)@,
            old(added)@,
            blocks_of(old_blocks@),
            blocks_of(new_blocks@),
            max_len(old(removed)@, old(added)@),
        ),
        final(removed)@ == Seq::<usize>::empty(),
        final(added)@ == Seq::<usize>::empty(),
{
    let ghost ol = blocks_of(old_blocks@);
    let ghost nl = blocks_of(new_blocks@);
    let ghost rs = removed@;
    let ghost xs = added@;
    let ghost start = blocks_model(blocks@);
    let count = if removed.len() >= added.len() {
        removed.len()
    } else {
        added.len()
    };
    let mut index: usize = 0;
    while index < count
        invariant
            0 <= index <= count,
            count == max_len(rs, xs),
            rs == removed@,
            xs == added@,
            ol == blocks_of(old_blocks@),
            nl == blocks_of(new_blocks@),
            forall|t: int| 0 <= t < rs.len() ==> #[trigger] rs[t] < old_blocks.len(),
            forall|t: int| 0 <= t < xs.len() ==> #[trigger] xs[t] < new_blocks.len(),
            old_keys.deep_view() == line_keys(ol),
            new_keys.deep_view() == line_keys(nl),
            old_keys.len() == old_blocks.len(),
            new_keys.len() == new_blocks.len(),
            blocks_model(blocks@) == start + edit_model(rs, xs, ol, nl, index as int),
        decreases count - index,
    {
        let ghost before = blocks_model(blocks@);
        if index < removed.len() && index < added.len() {
            let i = removed[index];
            let j = added[index];
            let before_block = &old_blocks[i];
            let after_block = &new_blocks[j];
            let role = block_role(&before_block.text);
            assert(old_keys@[i as int]@ == trim(before_block.text@)) by {
                assert(old_keys@[i as int].deep_view() =~= old_keys@[i as int]@);
                assert(old_keys.deep_view()[i as int] == old_keys@[i as int]@);
            }
            assert(new_keys@[j as int]@ == trim(after_block.text@)) by {
                assert(new_keys@[j as int].deep_view() =~= new_keys@[j as int]@);
                assert(new_keys.deep_view()[j as int] == new_keys@[j as int]@);
            }
            if role == block_role(&after_block.text) && similar_enough(&old_keys[i], &new_keys[j]) {
                let (before_spans, after_spans) = inline_spans_chars(&before_block.text, &after_block.text);
                blocks.push(
                    DiffBlock::Changed(
                        BlockChange {
                            kind: ChangeKind::Replace,
                            old_line: before_block.line,
                            new_line: after_block.line,
                            before_spans,
                            after_spans,
                            new_range: Some(after_block.start..after_block.end),
                            role,
                        },
                    ),
                );
            } else {
                blocks.push(deleted_block(before_block));
                blocks.push(inserted_block(after_block));
            }
        } else if index < removed.len() {
            blocks.push(deleted_block(&old_blocks[removed[index]]));
        } else if index < added.len() {
            blocks.push(inserted_block(&new_blocks[added[index]]));
        }
        assert(blocks_model(blocks@) =~= before + edit_step(rs, xs, ol, nl, index as int));
        index += 1;
    }
    removed.clear();
    added.clear();
}

/// Append the pending stretch of unchanged lines, if any.
fn flush_context(blocks: &mut Vec<DiffBlock>, context: &mut Vec<ContextBlock>)
    ensures
        old(context).len() > 0 ==> blocks_model(final(blocks)@) == blocks_model(old(blocks)@).push(
            BlockModel::Unchanged(contexts_model(old(context)@)),
        ),
        old(context).len() == 0 ==> final(blocks)@ == old(blocks)@,
        final(context)@ == Seq::<ContextBlock>::empty(),
{
    if context.len() > 0 {
        let mut taken: Vec<ContextBlock> = Vec::new();
        std::mem::swap(&mut taken, context);
        let ghost before = blocks@;
        blocks.push(DiffBlock::Unchanged(taken));
        assert(blocks_model(blocks@) =~= blocks_model(before).push(
            BlockModel::Unchanged(contexts_model(old(context)@)),
        ));
    }
}

/// The state of the streaming walk over the edit script: finished items, and
/// the one run still open.
spec fn stream_ok(
    segs: Seq<Seg>,
    done: Seq<BlockModel>,
    ctx: Seq<ContextModel>,
    rem: Seq<usize>,
    add: Seq<usize>,
    ol: Seq<SourceLine>,
    nl: Seq<SourceLine>,
) -> bool {
    if ctx.len() > 0 {
        &&& rem.len() == 0 && add.len() == 0
        &&& segs.len() > 0
        &&& match segs.last() {
            Seg::Keep(ps) => ctx == ps.map_values(
                |p: (usize, usize)| context_model(ol[p.0 as int], nl[p.1 as int]),
            ),
            _ => false,
        }
        &&& done == render(segs.drop_last(), ol, nl)
    } else if rem.len() > 0 || add.len() > 0 {
        &&& segs.len() > 0
        &&& segs.last() == Seg::Edit(rem, add)
        &&& done == render(segs.drop_last(), ol, nl)
    } else {
        segs.len() == 0 && done == Seq::<BlockModel>::empty()
    }
}

/// Paragraph-level diff of the body: `old` is the earlier version, `new` the
/// later one. Blank lines take no part in the comparison.
pub fn body_diff(old: &str, new: &str) -> (d: BodyDiff)
    ensures
        d.model() == body_model(old@, new@),
        d.changed_count == count_changed(d.model()),
{
    str_bytes_fit(old);
    str_bytes_fit(new);
    let old_chars = chars_of(old);
    let new_chars = chars_of(new);
    let old_blocks = split_blocks(&old_chars);
    let new_blocks = split_blocks(&new_chars);
    let ghost ol = blocks_of(old_blocks@);
    let ghost nl = blocks_of(new_blocks@);
    let a = block_keys(&old_blocks);
    let b = block_keys(&new_blocks);
    proof {
        lemma_byte_len_ge_len(old@);
        lemma_byte_len_ge_len(new@);
    }
    let ops = lcs_ops(&a, &b);
    proof {
        crate::lcs::lemma_script_aligns(a.deep_view(), b.deep_view(), 0, 0);
    }
    let mut blocks: Vec<DiffBlock> = Vec::new();
    let mut context: Vec<ContextBlock> = Vec::new();
    let mut removed: Vec<usize> = Vec::new();
    let mut added: Vec<usize> = Vec::new();
    let mut k: usize = 0;
    assert(ops@.take(0) =~= Seq::<DiffOp>::empty());
    assert(blocks_model(blocks@) =~= Seq::<BlockModel>::empty());
    assert(contexts_model(context@) =~= Seq::<ContextModel>::empty());
    while k < ops.len()
        invariant
            0 <= k <= ops.len(),
            ol == blocks_of(old_blocks@),
            nl == blocks_of(new_blocks@),
            a.deep_view() == line_keys(ol),
            b.deep_view() == line_keys(nl),
            a.len() == old_blocks.len(),
            b.len() == new_blocks.len(),
            ops@ == script(a.deep_view(), b.deep_view(), 0, 0),
            crate::lcs::old_indices(ops@) == crate::lcs::range_seq(0, a.len() as int),
            crate::lcs::new_indices(ops@) == crate::lcs::range_seq(0, b.len() as int),
            forall|t: int| 0 <= t < removed.len() ==> #[trigger] removed@[t] < old_blocks.len(),
            forall|t: int| 0 <= t < added.len() ==> #[trigger] added@[t] < new_blocks.len(),
            stream_ok(
                segments(ops@.take(k as int)),
                blocks_model(blocks@),
                contexts_model(context@),
                removed@,
                added@,
                ol,
                nl,
            ),
        decreases ops.len() - k,
    {
        let ghost segs = segments(ops@.take(k as int));
        proof {
            assert(ops@.take(k + 1).drop_last() =~= ops@.take(k as int));
            assert(ops@.take(k + 1).last() == ops@[k as int]);
            lemma_op_in_range(ops@, k as int, a.len() as int, b.len() as int);
        }
        match ops[k] {
            DiffOp::Same(i, j) => {
                let ghost pending_edit = removed.len() > 0 || added.len() > 0;
                flush_group(&mut blocks, &mut removed, &mut added, &old_blocks, &new_blocks, &a, &b);
                let ghost before_ctx = contexts_model(context@);
                let block = &new_blocks[j];
                context.push(
                    ContextBlock {
                        old_line: old_blocks[i].line,
                        new_line: block.line,
                        text: string_of(&block.text),
                        new_range: block.start..block.end,
                    },
                );
                proof {
                    let cm = context_model(ol[i as int], nl[j as int]);
                    assert(contexts_model(context@) =~= before_ctx.push(cm));
                    let segs2 = segments(ops@.take(k + 1));
                    if before_ctx.len() > 0 {
                        match segs.last() {
                            Seg::Keep(ps) => {
                                assert(segs2 == segs.update(segs.len() - 1, Seg::Keep(ps.push((i, j)))));
                                assert(ps.push((i, j)).map_values(
                                    |p: (usize, usize)| context_model(ol[p.0 as int], nl[p.1 as int]),
                                ) =~= before_ctx.push(cm));
                                assert(segs2.drop_last() =~= segs.drop_last());
                            },
                            _ => {},
                        }
                    } else {
                        if pending_edit {
                            assert(segs2 == segs.push(Seg::Keep(seq![(i, j)])));
                            assert(segs2.drop_last() =~= segs);
                        } else {
                            assert(segs2 == segs.push(Seg::Keep(seq![(i, j)])));
                            assert(segs2.drop_last() =~= segs);
                            assert(render(segs, ol, nl) =~= Seq::<BlockModel>::empty());
                        }
                        assert(seq![(i, j)].map_values(
                            |p: (usize, usize)| context_model(ol[p.0 as int], nl[p.1 as int]),
                        ) =~= before_ctx.push(cm));
                    }
                    assert(stream_ok(segments(ops@.take(k + 1)), blocks_model(blocks@), contexts_model(context@), removed@, added@, ol, nl));
                }
            },
            DiffOp::Delete(i) => {
                let ghost had_ctx = context.len() > 0;
                let ghost rem0 = removed@;
                let ghost add0 = added@;
                let ghost done0 = blocks_model(blocks@);
                let ghost ctx0 = contexts_model(context@);
                flush_context(&mut blocks, &mut context);
                removed.push(i);
                proof {
                    let segs2 = segments(ops@.take(k + 1));
                    if had_ctx {
                        assert(seg_model(segs.last(), ol, nl) =~= seq![BlockModel::Unchanged(ctx0)]);
                        assert(render(segs, ol, nl) == render(segs.drop_last(), ol, nl) + seg_model(segs.last(), ol, nl));
                        assert(blocks_model(blocks@) =~= render(segs, ol, nl));
                        assert(segs2 == segs.push(Seg::Edit(seq![i], seq![])));
                        assert(segs2.drop_last() =~= segs);
                        assert(removed@ =~= seq![i]);
                        assert(added@ =~= Seq::<usize>::empty());
                    } else if rem0.len() > 0 || add0.len() > 0 {
                        assert(segs2 == segs.update(segs.len() - 1, Seg::Edit(rem0.push(i), add0)));
                        assert(segs2.drop_last() =~= segs.drop_last());
                    } else {
                        assert(segs2 == segs.push(Seg::Edit(seq![i], seq![])));
                        assert(segs2.drop_last() =~= segs);
                        assert(removed@ =~= seq![i]);
                        assert(added@ =~= Seq::<usize>::empty());
                    }
                    assert(stream_ok(segments(ops@.take(k + 1)), blocks_model(blocks@), contexts_model(context@), removed@, added@, ol, nl));
                }
            },
            DiffOp::Insert(j) => {
                let ghost had_ctx = context.len() > 0;
                let ghost rem0 = removed@;
                let ghost add0 = added@;
                let ghost done0 = blocks_model(blocks@);
                let ghost ctx0 = contexts_model(context@);
                flush_context(&mut blocks, &mut context);
                added.push(j);
                proof {
                    let segs2 = segments(ops@.take(k + 1));
                    if had_ctx {
                        assert(seg_model(segs.last(), ol, nl) =~= seq![BlockModel::Unchanged(ctx0)]);
                        assert(render(segs, ol, nl) == render(segs.drop_last(), ol, nl) + seg_model(segs.last(), ol, nl));
                        assert(blocks_model(blocks@) =~= render(segs, ol, nl));
                        assert(segs2 == segs.push(Seg::Edit(seq![], seq![j])));
                        assert(segs2.drop_last() =~= segs);
                        assert(added@ =~= seq![j]);
                        assert(removed@ =~= Seq::<usize>::empty());
                    } else if rem0.len() > 0 || add0.len() > 0 {
                        assert(segs2 == segs.update(segs.len() - 1, Seg::Edit(rem0, add0.push(j))));
                        assert(segs2.drop_last() =~= segs.drop_last());
                    } else {
                        assert(segs2 == segs.push(Seg::Edit(seq![], seq![j])));
                        assert(segs2.drop_last() =~= segs);
                        assert(added@ =~= seq![j]);
                        assert(removed@ =~= Seq::<usize>::empty());
                    }
                    assert(stream_ok(segments(ops@.take(k + 1)), blocks_model(blocks@), contexts_model(context@), removed@, added@, ol, nl));
                }
            },
        }
        k += 1;
    }
    let ghost segs = segments(ops@);
    assert(ops@.take(ops.len() as int) =~= ops@);
    flush_group(&mut blocks, &mut removed, &mut added, &old_blocks, &new_blocks, &a, &b);
    flush_context(&mut blocks, &mut context);
    assert(blocks_model(blocks@) == render(segs, ol, nl));
    let mut changed_count: usize = 0;
    let mut t: usize = 0;
    while t < blocks.len()
        invariant
            0 <= t <= blocks.len(),
            changed_count <= t,
            changed_count == count_changed(blocks_model(blocks@.take(t as int))),
        decreases blocks.len() - t,
    {
        assert(blocks@.take(t + 1).drop_last() =~= blocks@.take(t as int));
        assert(blocks_model(blocks@.take(t + 1)).drop_last() =~= blocks_model(blocks@.take(t as int)));
        if let DiffBlock::Changed(_) = &blocks[t] {
            changed_count += 1;
        }
        t += 1;
    }
    assert(blocks@.take(blocks.len() as int) =~= blocks@);
    BodyDiff { blocks, changed_count }
}


// ---------------------------------------------------------------------------
// Field-by-field comparison.

/// One changed field: its label, the value before and the value after. An
/// empty value means the field was not filled in on that side.
#[derive(Debug, Clone, PartialEq, Eq)]
pub struct FieldChange {
    pub label: &'static str,
    pub before: String,
    pub after: String,
}

pub type FieldModel = (Seq<char>, Seq<char>, Seq<char>);

pub open spec fn fields_model(v: Seq<FieldChange>) -> Seq<FieldModel> {
    v.map_values(|f: FieldChange| (f.label@, f.before@, f.after@))
}

/// Append a field when its two values differ.
pub open spec fn push_field(v: Seq<FieldModel>, f: FieldModel) -> Seq<FieldModel> {
    if f.1 != f.2 {
        v.push(f)
    } else {
        v
    }
}

/// The fields of a checklist whose two values differ, in checklist order.
pub open spec fn changed(items: Seq<FieldModel>) -> Seq<FieldModel>
    decreases items.len(),
{
    if items.len() == 0 {
        seq![]
    } else {
        push_field(changed(items.drop_last()), items.last())
    }
}

proof fn lemma_changed_push(items: Seq<FieldModel>, f: FieldModel)
    ensures
        changed(items.push(f)) == push_field(changed(items), f),
{
    assert(items.push(f).drop_last() =~= items);
}

fn field(out: &mut Vec<FieldChange>, label: &'static str, before: String, after: String)
    ensures
        fields_model(final(out)@) == push_field(fields_model(old(out)@), (label@, before@, after@)),
{
    let ghost start = fields_model(out@);
    if before != after {
        out.push(FieldChange { label, before, after });
        assert(fields_model(out@) =~= start.push((label@, before@, after@)));
    }
}

pub open spec fn yes_no_text(v: bool) -> Seq<char> {
    if v {
        "是"@
    } else {
        "否"@
    }
}

fn yes_no(value: bool) -> (r: String)
    ensures
        r@ == yes_no_text(value),
{
    if value {
        "是".to_owned()
    } else {
        "否".to_owned()
    }
}

/// A secret is shown only as present or absent.
pub open spec fn masked_text(v: Seq<char>) -> Seq<char> {
    if v.len() == 0 {
        seq![]
    } else {
        "••••••"@
    }
}

fn masked(value: &String) -> (r: String)
    ensures
        r@ == masked_text(value@),
{
    if value.as_str().is_empty() {
        String::new()
    } else {
        "••••••".to_owned()
    }
}


/// How the contacts of co-issuing units are listed: `name：phone`, joined
/// by `；`.
pub open spec fn contacts_text(cs: Seq<JointContact>) -> Seq<char> {
    join_text(cs.map_values(|c: JointContact| c.name@ + "："@ + c.phone@), "；"@)
}

fn joint_contacts(contacts: &Vec<JointContact>) -> (r: String)
    ensures
        r@ == contacts_text(contacts@),
{
    let ghost parts = contacts@.map_values(|c: JointContact| c.name@ + "："@ + c.phone@);
    let mut r = String::new();
    let mut k: usize = 0;
    while k < contacts.len()
        invariant
            0 <= k <= contacts.len(),
            parts == contacts@.map_values(|c: JointContact| c.name@ + "："@ + c.phone@),
            r@ == join_text(parts.take(k as int), "；"@),
        decreases contacts.len() - k,
    {
        if k > 0 {
            push_str(&mut r, "；");
        }
        let ghost before = r@;
        push_str(&mut r, contacts[k].name.as_str());
        push_str(&mut r, "：");
        push_str(&mut r, contacts[k].phone.as_str());
        proof {
            let ps = parts.take(k + 1);
            assert(ps.drop_last() =~= parts.take(k as int));
            assert(ps.last() == parts[k as int]);
            if k == 0 {
                assert(r@ =~= ps[0]);
            } else {
                assert(r@ =~= join_text(ps, "；"@));
            }
        }
        k += 1;
    }
    assert(parts.take(contacts.len() as int) =~= parts);
    r
}

/// The layout checklist: every field of a profile with its label.
pub open spec fn profile_items(a: TemplateProfile, b: TemplateProfile) -> Seq<FieldModel> {
    seq![
        ("文种"@, kind_label(a.kind), kind_label(b.kind)),
        ("行文范围"@, scope_label(a.correspondence_scope), scope_label(b.correspondence_scope)),
        ("联合发文模式"@, joint_label(a.joint_issuance_mode), joint_label(b.joint_issuance_mode)),
        ("发文单位"@, a.issuing_unit@, b.issuing_unit@),
        ("联合发文单位"@, a.joint_issuing_units@, b.joint_issuing_units@),
        ("主送单位"@, a.main_issuing_unit@, b.main_issuing_unit@),
        ("机关代字"@, a.department_code@, b.department_code@),
        ("发文年份"@, a.document_year@, b.document_year@),
        ("主送"@, a.recipient@, b.recipient@),
        ("抄送"@, a.copies_to@, b.copies_to@),
        ("承办单位"@, a.responsible_unit@, b.responsible_unit@),
        ("联合承办单位"@, a.joint_responsible_units@, b.joint_responsible_units@),
        ("联系人"@, a.contact_person@, b.contact_person@),
        ("联系电话"@, a.contact_phone@, b.contact_phone@),
        ("联合联系人"@, contacts_text(a.joint_contacts@), contacts_text(b.joint_contacts@)),
        ("呈报领导"@, a.reporting_leaders@, b.reporting_leaders@),
        ("落款单位"@, a.signing_unit@, b.signing_unit@),
        ("密级"@, a.security_level@, b.security_level@),
        ("保密期限"@, a.security_period@, b.security_period@),
        ("指人专办"@, yes_no_text(a.special_handling), yes_no_text(b.special_handling)),
        ("文号"@, a.document_number@, b.document_number@),
        ("会议地点"@, a.meeting_location@, b.meeting_location@),
        ("函稿版本"@, version_label(a.letter_version), version_label(b.letter_version)),
        ("正文排版风格"@, style_label(a.style_mode), style_label(b.style_mode)),
        ("双面排版"@, yes_no_text(a.duplex_printing), yes_no_text(b.duplex_printing)),
    ]
}


pub open spec fn profile_changes_model(a: TemplateProfile, b: TemplateProfile) -> Seq<FieldModel> {
    changed(profile_items(a, b))
}

/// Field changes between two layout profiles.
pub fn profile_changes(a: &TemplateProfile, b: &TemplateProfile) -> (r: Vec<FieldChange>)
    ensures
        fields_model(r@) == profile_changes_model(*a, *b),
{
    let mut out: Vec<FieldChange> = Vec::new();
    let ghost mut items: Seq<FieldModel> = seq![];
    assert(fields_model(out@) =~= changed(items));
    field(&mut out, "文种", a.kind.label().to_owned(), b.kind.label().to_owned());
    proof { lemma_changed_push(items, ("文种"@, kind_label(a.kind), kind_label(b.kind))); items = items.push(("文种"@, kind_label(a.kind), kind_label(b.kind))); }
    field(&mut out, "行文范围", a.correspondence_scope.label().to_owned(), b.correspondence_scope.label().to_owned());
    proof { lemma_changed_push(items, ("行文范围"@, scope_label(a.correspondence_scope), scope_label(b.correspondence_scope))); items = items.push(("行文范围"@, scope_label(a.correspondence_scope), scope_label(b.correspondence_scope))); }
    field(&mut out, "联合发文模式", a.joint_issuance_mode.label().to_owned(), b.joint_issuance_mode.label().to_owned());
    proof { lemma_changed_push(items, ("联合发文模式"@, joint_label(a.joint_issuance_mode), joint_label(b.joint_issuance_mode))); items = items.push(("联合发文模式"@, joint_label(a.joint_issuance_mode), joint_label(b.joint_issuance_mode))); }
    field(&mut out, "发文单位", a.issuing_unit.clone(), b.issuing_unit.clone());
    proof { lemma_changed_push(items, ("发文单位"@, a.issuing_unit@, b.issuing_unit@)); items = items.push(("发文单位"@, a.issuing_unit@, b.issuing_unit@)); }
    field(&mut out, "联合发文单位", a.joint_issuing_units.clone(), b.joint_issuing_units.clone());
    proof { lemma_changed_push(items, ("联合发文单位"@, a.joint_issuing_units@, b.joint_issuing_units@)); items = items.push(("联合发文单位"@, a.joint_issuing_units@, b.joint_issuing_units@)); }
    field(&mut out, "主送单位", a.main_issuing_unit.clone(), b.main_issuing_unit.clone());
    proof { lemma_changed_push(items, ("主送单位"@, a.main_issuing_unit@, b.main_issuing_unit@)); items = items.push(("主送单位"@, a.main_issuing_unit@, b.main_issuing_unit@)); }
    field(&mut out, "机关代字", a.department_code.clone(), b.department_code.clone());
    proof { lemma_changed_push(items, ("机关代字"@, a.department_code@, b.department_code@)); items = items.push(("机关代字"@, a.department_code@, b.department_code@)); }
    field(&mut out, "发文年份", a.document_year.clone(), b.document_year.clone());
    proof { lemma_changed_push(items, ("发文年份"@, a.document_year@, b.document_year@)); items = items.push(("发文年份"@, a.document_year@, b.document_year@)); }
    field(&mut out, "主送", a.recipient.clone(), b.recipient.clone());
    proof { lemma_changed_push(items, ("主送"@, a.recipient@, b.recipient@)); items = items.push(("主送"@, a.recipient@, b.recipient@)); }
    field(&mut out, "抄送", a.copies_to.clone(), b.copies_to.clone());
    proof { lemma_changed_push(items, ("抄送"@, a.copies_to@, b.copies_to@)); items = items.push(("抄送"@, a.copies_to@, b.copies_to@)); }
    field(&mut out, "承办单位", a.responsible_unit.clone(), b.responsible_unit.clone());
    proof { lemma_changed_push(items, ("承办单位"@, a.responsible_unit@, b.responsible_unit@)); items = items.push(("承办单位"@, a.responsible_unit@, b.responsible_unit@)); }
    field(&mut out, "联合承办单位", a.joint_responsible_units.clone(), b.joint_responsible_units.clone());
    proof { lemma_changed_push(items, ("联合承办单位"@, a.joint_responsible_units@, b.joint_responsible_units@)); items = items.push(("联合承办单位"@, a.joint_responsible_units@, b.joint_responsible_units@)); }
    field(&mut out, "联系人", a.contact_person.clone(), b.contact_person.clone());
    proof { lemma_changed_push(items, ("联系人"@, a.contact_person@, b.contact_person@)); items = items.push(("联系人"@, a.contact_person@, b.contact_person@)); }
    field(&mut out, "联系电话", a.contact_phone.clone(), b.contact_phone.clone());
    proof { lemma_changed_push(items, ("联系电话"@, a.contact_phone@, b.contact_phone@)); items = items.push(("联系电话"@, a.contact_phone@, b.contact_phone@)); }
    field(&mut out, "联合联系人", joint_contacts(&a.joint_contacts), joint_contacts(&b.joint_contacts));
    proof { lemma_changed_push(items, ("联合联系人"@, contacts_text(a.joint_contacts@), contacts_text(b.joint_contacts@))); items = items.push(("联合联系人"@, contacts_text(a.joint_contacts@), contacts_text(b.joint_contacts@))); }
    field(&mut out, "呈报领导", a.reporting_leaders.clone(), b.reporting_leaders.clone());
    proof { lemma_changed_push(items, ("呈报领导"@, a.reporting_leaders@, b.reporting_leaders@)); items = items.push(("呈报领导"@, a.reporting_leaders@, b.reporting_leaders@)); }
    field(&mut out, "落款单位", a.signing_unit.clone(), b.signing_unit.clone());
    proof { lemma_changed_push(items, ("落款单位"@, a.signing_unit@, b.signing_unit@)); items = items.push(("落款单位"@, a.signing_unit@, b.signing_unit@)); }
    field(&mut out, "密级", a.security_level.clone(), b.security_level.clone());
    proof { lemma_changed_push(items, ("密级"@, a.security_level@, b.security_level@)); items = items.push(("密级"@, a.security_level@, b.security_level@)); }
    field(&mut out, "保密期限", a.security_period.clone(), b.security_period.clone());
    proof { lemma_changed_push(items, ("保密期限"@, a.security_period@, b.security_period@)); items = items.push(("保密期限"@, a.security_period@, b.security_period@)); }
    field(&mut out, "指人专办", yes_no(a.special_handling), yes_no(b.special_handling));
    proof { lemma_changed_push(items, ("指人专办"@, yes_no_text(a.special_handling), yes_no_text(b.special_handling))); items = items.push(("指人专办"@, yes_no_text(a.special_handling), yes_no_text(b.special_handling))); }
    field(&mut out, "文号", a.document_number.clone(), b.document_number.clone());
    proof { lemma_changed_push(items, ("文号"@, a.document_number@, b.document_number@)); items = items.push(("文号"@, a.document_number@, b.document_number@)); }
    field(&mut out, "会议地点", a.meeting_location.clone(), b.meeting_location.clone());
    proof { lemma_changed_push(items, ("会议地点"@, a.meeting_location@, b.meeting_location@)); items = items.push(("会议地点"@, a.meeting_location@, b.meeting_location@)); }
    field(&mut out, "函稿版本", a.letter_version.label().to_owned(), b.letter_version.label().to_owned());
    proof { lemma_changed_push(items, ("函稿版本"@, version_label(a.letter_version), version_label(b.letter_version))); items = items.push(("函稿版本"@, version_label(a.letter_version), version_label(b.letter_version))); }
    field(&mut out, "正文排版风格", a.style_mode.label().to_owned(), b.style_mode.label().to_owned());
    proof { lemma_changed_push(items, ("正文排版风格"@, style_label(a.style_mode), style_label(b.style_mode))); items = items.push(("正文排版风格"@, style_label(a.style_mode), style_label(b.style_mode))); }
    field(&mut out, "双面排版", yes_no(a.duplex_printing), yes_no(b.duplex_printing));
    proof { lemma_changed_push(items, ("双面排版"@, yes_no_text(a.duplex_printing), yes_no_text(b.duplex_printing))); items = items.push(("双面排版"@, yes_no_text(a.duplex_printing), yes_no_text(b.duplex_printing))); }
    assert(items =~= profile_items(*a, *b));

    out
}

/// The element checklist of a draft, its profile aside.
pub open spec fn draft_items(a: DraftInput, b: DraftInput) -> Seq<FieldModel> {
    seq![
        ("文种"@, kind_label(a.kind), kind_label(b.kind)),
        ("标题提示"@, a.title_hint@, b.title_hint@),
        ("成文日期"@, a.date@, b.date@),
        ("会议时间"@, a.meeting_time@, b.meeting_time@),
        ("参会人员"@, a.attendees@, b.attendees@),
    ]
}


pub open spec fn draft_changes_model(a: DraftInput, b: DraftInput) -> Seq<FieldModel> {
    changed(draft_items(a, b)) + profile_changes_model(a.profile, b.profile)
}

/// Field changes between the document elements of two drafts, the embedded
/// layout profile included.
pub fn draft_changes(a: &DraftInput, b: &DraftInput) -> (r: Vec<FieldChange>)
    ensures
        fields_model(r@) == draft_changes_model(*a, *b),
{
    let mut out: Vec<FieldChange> = Vec::new();
    let ghost mut items: Seq<FieldModel> = seq![];
    assert(fields_model(out@) =~= changed(items));
    field(&mut out, "文种", a.kind.label().to_owned(), b.kind.label().to_owned());
    proof { lemma_changed_push(items, ("文种"@, kind_label(a.kind), kind_label(b.kind))); items = items.push(("文种"@, kind_label(a.kind), kind_label(b.kind))); }
    field(&mut out, "标题提示", a.title_hint.clone(), b.title_hint.clone());
    proof { lemma_changed_push(items, ("标题提示"@, a.title_hint@, b.title_hint@)); items = items.push(("标题提示"@, a.title_hint@, b.title_hint@)); }
    field(&mut out, "成文日期", a.date.clone(), b.date.clone());
    proof { lemma_changed_push(items, ("成文日期"@, a.date@, b.date@)); items = items.push(("成文日期"@, a.date@, b.date@)); }
    field(&mut out, "会议时间", a.meeting_time.clone(), b.meeting_time.clone());
    proof { lemma_changed_push(items, ("会议时间"@, a.meeting_time@, b.meeting_time@)); items = items.push(("会议时间"@, a.meeting_time@, b.meeting_time@)); }
    field(&mut out, "参会人员", a.attendees.clone(), b.attendees.clone());
    proof { lemma_changed_push(items, ("参会人员"@, a.attendees@, b.attendees@)); items = items.push(("参会人员"@, a.attendees@, b.attendees@)); }
    assert(items =~= draft_items(*a, *b));

    let mut rest = profile_changes(&a.profile, &b.profile);
    let ghost head = fields_model(out@);
    out.append(&mut rest);
    assert(fields_model(out@) =~= draft_changes_model(*a, *b));
    out
}


// ---------------------------------------------------------------------------
// Vocabulary changes.

/// A vocabulary entry added, deleted or modified.
#[derive(Debug, Clone)]
pub struct VocabChange {
    pub category: VocabularyCategory,
    /// "新增", "删除" or "修改".
    pub action: &'static str,
    /// Display name: units by name and abbreviation, persons by name.
    pub label: String,
    /// The changed fields of a modification; empty otherwise.
    pub changes: Vec<FieldChange>,
}

pub struct VocabChangeModel {
    pub category: VocabularyCategory,
    pub action: Seq<char>,
    pub label: Seq<char>,
    pub changes: Seq<FieldModel>,
}

impl VocabChange {
    pub open spec fn model(&self) -> VocabChangeModel {
        VocabChangeModel {
            category: self.category,
            action: self.action@,
            label: self.label@,
            changes: fields_model(self.changes@),
        }
    }
}

pub open spec fn vocab_changes_model_of(v: Seq<VocabChange>) -> Seq<VocabChangeModel> {
    v.map_values(|c: VocabChange| c.model())
}

/// How an entry is named in the change list.
pub open spec fn vocab_label_text(e: VocabularyEntry) -> Seq<char> {
    if e.category == VocabularyCategory::Person {
        e.canonical@
    } else {
        e.canonical@ + "（"@ + trim(e.abbr@) + "）"@
    }
}

fn vocab_label(entry: &VocabularyEntry) -> (r: String)
    ensures
        r@ == vocab_label_text(*entry),
{
    if entry.category == VocabularyCategory::Person {
        entry.canonical.clone()
    } else {
        let mut r = entry.canonical.clone();
        push_str(&mut r, "（");
        let abbr = chars_of(entry.abbr.as_str());
        let (l, h) = trim_bounds(&abbr, 0, abbr.len());
        assert(abbr@.subrange(0, abbr.len() as int) =~= abbr@);
        let trimmed = copy_range(&abbr, l, h);
        push_chars(&mut r, &trimmed);
        push_str(&mut r, "）");
        assert(r@ =~= vocab_label_text(*entry));
        r
    }
}

/// The field checklist of a vocabulary entry.
pub open spec fn vocab_items(a: VocabularyEntry, b: VocabularyEntry) -> Seq<FieldModel> {
    seq![
        ("全称"@, a.canonical@, b.canonical@),
        ("简称"@, a.abbr@, b.abbr@),
        ("外部名称"@, a.external_name@, b.external_name@),
        ("机关代字"@, a.department_code@, b.department_code@),
        ("是否代章"@, yes_no_text(a.seal_on_behalf), yes_no_text(b.seal_on_behalf)),
        ("上级单位"@, a.parent@, b.parent@),
        ("别名"@, join_text(strings_model(a.aliases@), "、"@), join_text(strings_model(b.aliases@), "、"@)),
        ("电话"@, a.phone@, b.phone@),
        ("职务"@, a.position@, b.position@),
        ("承办上级单位"@, yes_no_text(a.can_handle_parent_unit), yes_no_text(b.can_handle_parent_unit)),
        ("备注"@, a.note@, b.note@),
    ]
}


pub open spec fn vocab_fields_model(a: VocabularyEntry, b: VocabularyEntry) -> Seq<FieldModel> {
    changed(vocab_items(a, b))
}

fn vocab_field_changes(a: &VocabularyEntry, b: &VocabularyEntry) -> (r: Vec<FieldChange>)
    ensures
        fields_model(r@) == vocab_fields_model(*a, *b),
{
    let mut out: Vec<FieldChange> = Vec::new();
    let ghost mut items: Seq<FieldModel> = seq![];
    assert(fields_model(out@) =~= changed(items));
    field(&mut out, "全称", a.canonical.clone(), b.canonical.clone());
    proof { lemma_changed_push(items, ("全称"@, a.canonical@, b.canonical@)); items = items.push(("全称"@, a.canonical@, b.canonical@)); }
    field(&mut out, "简称", a.abbr.clone(), b.abbr.clone());
    proof { lemma_changed_push(items, ("简称"@, a.abbr@, b.abbr@)); items = items.push(("简称"@, a.abbr@, b.abbr@)); }
    field(&mut out, "外部名称", a.external_name.clone(), b.external_name.clone());
    proof { lemma_changed_push(items, ("外部名称"@, a.external_name@, b.external_name@)); items = items.push(("外部名称"@, a.external_name@, b.external_name@)); }
    field(&mut out, "机关代字", a.department_code.clone(), b.department_code.clone());
    proof { lemma_changed_push(items, ("机关代字"@, a.department_code@, b.department_code@)); items = items.push(("机关代字"@, a.department_code@, b.department_code@)); }
    field(&mut out, "是否代章", yes_no(a.seal_on_behalf), yes_no(b.seal_on_behalf));
    proof { lemma_changed_push(items, ("是否代章"@, yes_no_text(a.seal_on_behalf), yes_no_text(b.seal_on_behalf))); items = items.push(("是否代章"@, yes_no_text(a.seal_on_behalf), yes_no_text(b.seal_on_behalf))); }
    field(&mut out, "上级单位", a.parent.clone(), b.parent.clone());
    proof { lemma_changed_push(items, ("上级单位"@, a.parent@, b.parent@)); items = items.push(("上级单位"@, a.parent@, b.parent@)); }
    field(&mut out, "别名", join_strings(&a.aliases, "、"), join_strings(&b.aliases, "、"));
    proof { lemma_changed_push(items, ("别名"@, join_text(strings_model(a.aliases@), "、"@), join_text(strings_model(b.aliases@), "、"@))); items = items.push(("别名"@, join_text(strings_model(a.aliases@), "、"@), join_text(strings_model(b.aliases@), "、"@))); }
    field(&mut out, "电话", a.phone.clone(), b.phone.clone());
    proof { lemma_changed_push(items, ("电话"@, a.phone@, b.phone@)); items = items.push(("电话"@, a.phone@, b.phone@)); }
    field(&mut out, "职务", a.position.clone(), b.position.clone());
    proof { lemma_changed_push(items, ("职务"@, a.position@, b.position@)); items = items.push(("职务"@, a.position@, b.position@)); }
    field(&mut out, "承办上级单位", yes_no(a.can_handle_parent_unit), yes_no(b.can_handle_parent_unit));
    proof { lemma_changed_push(items, ("承办上级单位"@, yes_no_text(a.can_handle_parent_unit), yes_no_text(b.can_handle_parent_unit))); items = items.push(("承办上级单位"@, yes_no_text(a.can_handle_parent_unit), yes_no_text(b.can_handle_parent_unit))); }
    field(&mut out, "备注", a.note.clone(), b.note.clone());
    proof { lemma_changed_push(items, ("备注"@, a.note@, b.note@)); items = items.push(("备注"@, a.note@, b.note@)); }
    assert(items =~= vocab_items(*a, *b));

    out
}

/// Whether some entry carries identity `id`.
pub open spec fn has_id(v: Seq<VocabularyEntry>, id: u64) -> bool {
    exists|k: int| 0 <= k < v.len() && #[trigger] v[k].id == id
}

/// Index of the last entry carrying identity `id` (the one a lookup by id
/// finds when later entries replace earlier ones).
pub open spec fn last_index(v: Seq<VocabularyEntry>, id: u64) -> int
    decreases v.len(),
{
    if v.len() == 0 {
        -1
    } else if v.last().id == id {
        v.len() - 1
    } else {
        last_index(v.drop_last(), id)
    }
}

proof fn lemma_last_index(v: Seq<VocabularyEntry>, id: u64)
    ensures
        has_id(v, id) ==> 0 <= last_index(v, id) < v.len() && v[last_index(v, id)].id == id,
        !has_id(v, id) ==> last_index(v, id) == -1,
    decreases v.len(),
{
    if v.len() > 0 {
        lemma_last_index(v.drop_last(), id);
        if v.last().id != id {
            if has_id(v, id) {
                let k = choose|k: int| 0 <= k < v.len() && #[trigger] v[k].id == id;
                assert(v.drop_last()[k].id == id);
            }
            if has_id(v.drop_last(), id) {
                let k = choose|k: int| 0 <= k < v.len() - 1 && #[trigger] v.drop_last()[k].id == id;
                assert(v[k].id == id);
            }
        } else {
            assert(v[v.len() - 1].id == id);
        }
    }
}

/// The first `k` entries of `b` whose identity `a` does not have, in `b`'s
/// order, each reported with `action`.
pub open spec fn unmatched_entries(
    a: Seq<VocabularyEntry>,
    b: Seq<VocabularyEntry>,
    k: int,
    action: Seq<char>,
) -> Seq<VocabChangeModel>
    decreases k,
{
    if k <= 0 {
        seq![]
    } else {
        let prev = unmatched_entries(a, b, k - 1, action);
        let e = b[k - 1];
        if !has_id(a, e.id) {
            prev.push(VocabChangeModel { category: e.category, action, label: vocab_label_text(e), changes: seq![] })
        } else {
            prev
        }
    }
}

/// Entries of `b` whose identity `a` has, with the fields that differ from
/// the entry `a` holds for it.
pub open spec fn modified_entries(a: Seq<VocabularyEntry>, b: Seq<VocabularyEntry>, k: int) -> Seq<VocabChangeModel>
    decreases k,
{
    if k <= 0 {
        seq![]
    } else {
        let prev = modified_entries(a, b, k - 1);
        let e = b[k - 1];
        let changes = vocab_fields_model(a[last_index(a, e.id)], e);
        if has_id(a, e.id) && changes.len() > 0 {
            prev.push(VocabChangeModel { category: e.category, action: "修改"@, label: vocab_label_text(e), changes })
        } else {
            prev
        }
    }
}

/// Vocabulary changes between two entry lists, matched by identity: added
/// entries, then deleted ones, then modified ones.
pub open spec fn vocab_model(a: Seq<VocabularyEntry>, b: Seq<VocabularyEntry>) -> Seq<VocabChangeModel> {
    unmatched_entries(a, b, b.len() as int, "新增"@) + unmatched_entries(b, a, a.len() as int, "删除"@)
        + modified_entries(a, b, b.len() as int)
}

/// Index of the last entry of `v` with identity `id`.
fn find_last_id(v: &Vec<VocabularyEntry>, id: u64) -> (r: Option<usize>)
    ensures
        match r {
            Some(k) => k < v.len() && k == last_index(v@, id) && has_id(v@, id),
            None => !has_id(v@, id),
        },
{
    let mut k = v.len();
    while k > 0
        invariant
            k <= v.len(),
            forall|t: int| k <= t < v.len() ==> v@[t].id != id,
        decreases k,
    {
        if v[k - 1].id == id {
            proof {
                lemma_last_index_suffix(v@, id, k as int);
            }
            return Some(k - 1);
        }
        k -= 1;
    }
    proof {
        if has_id(v@, id) {
            let t = choose|t: int| 0 <= t < v@.len() && #[trigger] v@[t].id == id;
        }
    }
    None
}

proof fn lemma_last_index_suffix(v: Seq<VocabularyEntry>, id: u64, k: int)
    requires
        0 < k <= v.len(),
        v[k - 1].id == id,
        forall|t: int| k <= t < v.len() ==> v[t].id != id,
    ensures
        last_index(v, id) == k - 1,
        has_id(v, id),
    decreases v.len(),
{
    if k < v.len() {
        assert(v.last().id != id);
        assert forall|t: int| k <= t < v.drop_last().len() implies v.drop_last()[t].id != id by {
            assert(v.drop_last()[t] == v[t]);
        }
        assert(v.drop_last()[k - 1] == v[k - 1]);
        lemma_last_index_suffix(v.drop_last(), id, k);
    }
    assert(v[k - 1].id == id);
}

fn vocab_changes(a: &AppConfig, b: &AppConfig) -> (r: Vec<VocabChange>)
    ensures
        vocab_changes_model_of(r@) == vocab_model(a.vocabulary@, b.vocabulary@),
{
    let av = &a.vocabulary;
    let bv = &b.vocabulary;
    let mut out: Vec<VocabChange> = Vec::new();
    let mut k: usize = 0;
    while k < bv.len()
        invariant
            0 <= k <= bv.len(),
            vocab_changes_model_of(out@) == unmatched_entries(av@, bv@, k as int, "新增"@),
        decreases bv.len() - k,
    {
        let entry = &bv[k];
        let ghost before = vocab_changes_model_of(out@);
        if find_last_id(av, entry.id).is_none() {
            out.push(VocabChange { category: entry.category, action: "新增", label: vocab_label(entry), changes: Vec::new() });
            assert(fields_model(Seq::<FieldChange>::empty()) =~= Seq::<FieldModel>::empty());
            assert(vocab_changes_model_of(out@) =~= before.push(VocabChangeModel { category: entry.category, action: "新增"@, label: vocab_label_text(*entry), changes: seq![] }));
        }
        k += 1;
    }
    let ghost added = vocab_changes_model_of(out@);
    let mut k: usize = 0;
    while k < av.len()
        invariant
            0 <= k <= av.len(),
            added == unmatched_entries(av@, bv@, bv.len() as int, "新增"@),
            vocab_changes_model_of(out@) == added + unmatched_entries(bv@, av@, k as int, "删除"@),
        decreases av.len() - k,
    {
        let entry = &av[k];
        let ghost before = vocab_changes_model_of(out@);
        if find_last_id(bv, entry.id).is_none() {
            out.push(VocabChange { category: entry.category, action: "删除", label: vocab_label(entry), changes: Vec::new() });
            assert(fields_model(Seq::<FieldChange>::empty()) =~= Seq::<FieldModel>::empty());
            assert(vocab_changes_model_of(out@) =~= before.push(VocabChangeModel { category: entry.category, action: "删除"@, label: vocab_label_text(*entry), changes: seq![] }));
        }
        assert(vocab_changes_model_of(out@) =~= added + unmatched_entries(bv@, av@, k + 1, "删除"@));
        k += 1;
    }
    let ghost both = vocab_changes_model_of(out@);
    let mut k: usize = 0;
    while k < bv.len()
        invariant
            0 <= k <= bv.len(),
            both == unmatched_entries(av@, bv@, bv.len() as int, "新增"@) + unmatched_entries(bv@, av@, av.len() as int, "删除"@),
            vocab_changes_model_of(out@) == both + modified_entries(av@, bv@, k as int),
        decreases bv.len() - k,
    {
        let entry = &bv[k];
        let ghost before = vocab_changes_model_of(out@);
        if let Some(at) = find_last_id(av, entry.id) {
            let changes = vocab_field_changes(&av[at], entry);
            if changes.len() > 0 {
                let ghost cm = fields_model(changes@);
                out.push(VocabChange { category: entry.category, action: "修改", label: vocab_label(entry), changes });
                assert(vocab_changes_model_of(out@) =~= before.push(VocabChangeModel { category: entry.category, action: "修改"@, label: vocab_label_text(*entry), changes: cm }));
            }
        }
        assert(vocab_changes_model_of(out@) =~= both + modified_entries(av@, bv@, k + 1));
        k += 1;
    }
    out
}

/// The connection checklist of the language-model server.
pub open spec fn connection_items(a: LmStudioConfig, b: LmStudioConfig) -> Seq<FieldModel> {
    seq![
        ("接口地址"@, a.base_url@, b.base_url@),
        ("模型"@, a.model@, b.model@),
        ("API Key"@, masked_text(a.api_key@), masked_text(b.api_key@)),
        ("温度"@, a.temperature@, b.temperature@),
        ("最大输出 Token"@, decimal_digits(a.max_tokens as nat), decimal_digits(b.max_tokens as nat)),
        ("超时（秒）"@, decimal_digits(a.timeout_seconds as nat), decimal_digits(b.timeout_seconds as nat)),
    ]
}
/// The output checklist: directory and export formats.
pub open spec fn output_items(a: AppConfig, b: AppConfig) -> Seq<FieldModel> {
    seq![
        ("输出目录"@, a.output_dir@, b.output_dir@),
        ("导出：Markdown"@, yes_no_text(a.export.markdown), yes_no_text(b.export.markdown)),
        ("导出：Word"@, yes_no_text(a.export.docx), yes_no_text(b.export.docx)),
        ("导出：LaTeX"@, yes_no_text(a.export.tex), yes_no_text(b.export.tex)),
        ("覆盖同名文件"@, yes_no_text(a.export.overwrite), yes_no_text(b.export.overwrite)),
    ]
}
/// The checklist of editing behaviour.
pub open spec fn behaviour_items(a: AppConfig, b: AppConfig) -> Seq<FieldModel> {
    seq![
        ("生成后自动导出"@, yes_no_text(a.auto_export), yes_no_text(b.auto_export)),
        ("允许词库外手填"@, yes_no_text(a.allow_free_text), yes_no_text(b.allow_free_text)),
        ("编辑器显示行号"@, yes_no_text(a.show_editor_line_numbers), yes_no_text(b.show_editor_line_numbers)),
    ]
}
/// The checklist of secrecy-period rules.
pub open spec fn secrecy_items(a: SecurityRules, b: SecurityRules) -> Seq<FieldModel> {
    seq![
        ("秘密级上限（年）"@, decimal_digits(a.secret_max_years as nat), decimal_digits(b.secret_max_years as nat)),
        ("机密级上限（年）"@, decimal_digits(a.confidential_max_years as nat), decimal_digits(b.confidential_max_years as nat)),
        ("绝密级上限（年）"@, decimal_digits(a.top_secret_max_years as nat), decimal_digits(b.top_secret_max_years as nat)),
        ("允许“长期”期限"@, yes_no_text(a.allow_long_term), yes_no_text(b.allow_long_term)),
    ]
}
/// The settings checklist: connection, output, behaviour, then secrecy rules.
pub open spec fn settings_items(a: AppConfig, b: AppConfig) -> Seq<FieldModel> {
    connection_items(a.lm_studio, b.lm_studio) + output_items(a, b) + behaviour_items(a, b)
        + secrecy_items(a.security_rules, b.security_rules)
}

pub open spec fn settings_changes_model(a: AppConfig, b: AppConfig) -> Seq<FieldModel> {
    changed(settings_items(a, b))
}

proof fn lemma_changed_concat(x: Seq<FieldModel>, y: Seq<FieldModel>)
    ensures
        changed(x + y) == changed(x) + changed(y),
    decreases y.len(),
{
    if y.len() == 0 {
        assert(x + y =~= x);
        assert(changed(x) + changed(y) =~= changed(x));
    } else {
        lemma_changed_concat(x, y.drop_last());
        assert((x + y).drop_last() =~= x + y.drop_last());
        assert((x + y).last() == y.last());
        if y.last().1 != y.last().2 {
            assert(changed(x) + changed(y) =~= (changed(x) + changed(y.drop_last())).push(y.last()));
        }
    }
}

fn connection_changes(a: &LmStudioConfig, b: &LmStudioConfig) -> (r: Vec<FieldChange>)
    ensures
        fields_model(r@) == changed(connection_items(*a, *b)),
{
    let mut out: Vec<FieldChange> = Vec::new();
    let ghost mut items: Seq<FieldModel> = seq![];
    assert(fields_model(out@) =~= changed(items));
    field(&mut out, "接口地址", a.base_url.clone(), b.base_url.clone());
    proof { lemma_changed_push(items, ("接口地址"@, a.base_url@, b.base_url@)); items = items.push(("接口地址"@, a.base_url@, b.base_url@)); }
    field(&mut out, "模型", a.model.clone(), b.model.clone());
    proof { lemma_changed_push(items, ("模型"@, a.model@, b.model@)); items = items.push(("模型"@, a.model@, b.model@)); }
    field(&mut out, "API Key", masked(&a.api_key), masked(&b.api_key));
    proof { lemma_changed_push(items, ("API Key"@, masked_text(a.api_key@), masked_text(b.api_key@))); items = items.push(("API Key"@, masked_text(a.api_key@), masked_text(b.api_key@))); }
    field(&mut out, "温度", a.temperature.clone(), b.temperature.clone());
    proof { lemma_changed_push(items, ("温度"@, a.temperature@, b.temperature@)); items = items.push(("温度"@, a.temperature@, b.temperature@)); }
    field(&mut out, "最大输出 Token", decimal(a.max_tokens), decimal(b.max_tokens));
    proof { lemma_changed_push(items, ("最大输出 Token"@, decimal_digits(a.max_tokens as nat), decimal_digits(b.max_tokens as nat))); items = items.push(("最大输出 Token"@, decimal_digits(a.max_tokens as nat), decimal_digits(b.max_tokens as nat))); }
    field(&mut out, "超时（秒）", decimal(a.timeout_seconds), decimal(b.timeout_seconds));
    proof { lemma_changed_push(items, ("超时（秒）"@, decimal_digits(a.timeout_seconds as nat), decimal_digits(b.timeout_seconds as nat))); items = items.push(("超时（秒）"@, decimal_digits(a.timeout_seconds as nat), decimal_digits(b.timeout_seconds as nat))); }
    assert(items =~= connection_items(*a, *b));
    out
}

fn output_changes(a: &AppConfig, b: &AppConfig) -> (r: Vec<FieldChange>)
    ensures
        fields_model(r@) == changed(output_items(*a, *b)),
{
    let mut out: Vec<FieldChange> = Vec::new();
    let ghost mut items: Seq<FieldModel> = seq![];
    assert(fields_model(out@) =~= changed(items));
    field(&mut out, "输出目录", a.output_dir.clone(), b.output_dir.clone());
    proof { lemma_changed_push(items, ("输出目录"@, a.output_dir@, b.output_dir@)); items = items.push(("输出目录"@, a.output_dir@, b.output_dir@)); }
    field(&mut out, "导出：Markdown", yes_no(a.export.markdown), yes_no(b.export.markdown));
    proof { lemma_changed_push(items, ("导出：Markdown"@, yes_no_text(a.export.markdown), yes_no_text(b.export.markdown))); items = items.push(("导出：Markdown"@, yes_no_text(a.export.markdown), yes_no_text(b.export.markdown))); }
    field(&mut out, "导出：Word", yes_no(a.export.docx), yes_no(b.export.docx));
    proof { lemma_changed_push(items, ("导出：Word"@, yes_no_text(a.export.docx), yes_no_text(b.export.docx))); items = items.push(("导出：Word"@, yes_no_text(a.export.docx), yes_no_text(b.export.docx))); }
    field(&mut out, "导出：LaTeX", yes_no(a.export.tex), yes_no(b.export.tex));
    proof { lemma_changed_push(items, ("导出：LaTeX"@, yes_no_text(a.export.tex), yes_no_text(b.export.tex))); items = items.push(("导出：LaTeX"@, yes_no_text(a.export.tex), yes_no_text(b.export.tex))); }
    field(&mut out, "覆盖同名文件", yes_no(a.export.overwrite), yes_no(b.export.overwrite));
    proof { lemma_changed_push(items, ("覆盖同名文件"@, yes_no_text(a.export.overwrite), yes_no_text(b.export.overwrite))); items = items.push(("覆盖同名文件"@, yes_no_text(a.export.overwrite), yes_no_text(b.export.overwrite))); }
    assert(items =~= output_items(*a, *b));
    out
}

fn behaviour_changes(a: &AppConfig, b: &AppConfig) -> (r: Vec<FieldChange>)
    ensures
        fields_model(r@) == changed(behaviour_items(*a, *b)),
{
    let mut out: Vec<FieldChange> = Vec::new();
    let ghost mut items: Seq<FieldModel> = seq![];
    assert(fields_model(out@) =~= changed(items));
    field(&mut out, "生成后自动导出", yes_no(a.auto_export), yes_no(b.auto_export));
    proof { lemma_changed_push(items, ("生成后自动导出"@, yes_no_text(a.auto_export), yes_no_text(b.auto_export))); items = items.push(("生成后自动导出"@, yes_no_text(a.auto_export), yes_no_text(b.auto_export))); }
    field(&mut out, "允许词库外手填", yes_no(a.allow_free_text), yes_no(b.allow_free_text));
    proof { lemma_changed_push(items, ("允许词库外手填"@, yes_no_text(a.allow_free_text), yes_no_text(b.allow_free_text))); items = items.push(("允许词库外手填"@, yes_no_text(a.allow_free_text), yes_no_text(b.allow_free_text))); }
    field(&mut out, "编辑器显示行号", yes_no(a.show_editor_line_numbers), yes_no(b.show_editor_line_numbers));
    proof { lemma_changed_push(items, ("编辑器显示行号"@, yes_no_text(a.show_editor_line_numbers), yes_no_text(b.show_editor_line_numbers))); items = items.push(("编辑器显示行号"@, yes_no_text(a.show_editor_line_numbers), yes_no_text(b.show_editor_line_numbers))); }
    assert(items =~= behaviour_items(*a, *b));
    out
}

fn secrecy_changes(a: &SecurityRules, b: &SecurityRules) -> (r: Vec<FieldChange>)
    ensures
        fields_model(r@) == changed(secrecy_items(*a, *b)),
{
    let mut out: Vec<FieldChange> = Vec::new();
    let ghost mut items: Seq<FieldModel> = seq![];
    assert(fields_model(out@) =~= changed(items));
    field(&mut out, "秘密级上限（年）", decimal(a.secret_max_years), decimal(b.secret_max_years));
    proof { lemma_changed_push(items, ("秘密级上限（年）"@, decimal_digits(a.secret_max_years as nat), decimal_digits(b.secret_max_years as nat))); items = items.push(("秘密级上限（年）"@, decimal_digits(a.secret_max_years as nat), decimal_digits(b.secret_max_years as nat))); }
    field(&mut out, "机密级上限（年）", decimal(a.confidential_max_years), decimal(b.confidential_max_years));
    proof { lemma_changed_push(items, ("机密级上限（年）"@, decimal_digits(a.confidential_max_years as nat), decimal_digits(b.confidential_max_years as nat))); items = items.push(("机密级上限（年）"@, decimal_digits(a.confidential_max_years as nat), decimal_digits(b.confidential_max_years as nat))); }
    field(&mut out, "绝密级上限（年）", decimal(a.top_secret_max_years), decimal(b.top_secret_max_years));
    proof { lemma_changed_push(items, ("绝密级上限（年）"@, decimal_digits(a.top_secret_max_years as nat), decimal_digits(b.top_secret_max_years as nat))); items = items.push(("绝密级上限（年）"@, decimal_digits(a.top_secret_max_years as nat), decimal_digits(b.top_secret_max_years as nat))); }
    field(&mut out, "允许“长期”期限", yes_no(a.allow_long_term), yes_no(b.allow_long_term));
    proof { lemma_changed_push(items, ("允许“长期”期限"@, yes_no_text(a.allow_long_term), yes_no_text(b.allow_long_term))); items = items.push(("允许“长期”期限"@, yes_no_text(a.allow_long_term), yes_no_text(b.allow_long_term))); }
    assert(items =~= secrecy_items(*a, *b));
    out
}
/// Append `rest` to `out`, the field lists following each other.
fn append_fields(out: &mut Vec<FieldChange>, rest: Vec<FieldChange>)
    ensures
        fields_model(final(out)@) == fields_model(old(out)@) + fields_model(rest@),
{
    let mut rest = rest;
    let ghost head = out@;
    let ghost tail = rest@;
    out.append(&mut rest);
    assert(fields_model(out@) =~= fields_model(head) + fields_model(tail));
}

/// Changes of the settings proper (the vocabulary and the profiles are
/// reported apart).
fn settings_changes(a: &AppConfig, b: &AppConfig) -> (r: Vec<FieldChange>)
    ensures
        fields_model(r@) == settings_changes_model(*a, *b),
{
    let mut out = connection_changes(&a.lm_studio, &b.lm_studio);
    append_fields(&mut out, output_changes(a, b));
    append_fields(&mut out, behaviour_changes(a, b));
    append_fields(&mut out, secrecy_changes(&a.security_rules, &b.security_rules));
    proof {
        let c = connection_items(a.lm_studio, b.lm_studio);
        let o = output_items(*a, *b);
        let h = behaviour_items(*a, *b);
        let q = secrecy_items(a.security_rules, b.security_rules);
        lemma_changed_concat(c, o);
        lemma_changed_concat(c + o, h);
        lemma_changed_concat(c + o + h, q);
    }
    out
}

// ---------------------------------------------------------------------------
// Layout profiles per kind.

/// The layout changes of one kind of document.
#[derive(Debug, Clone)]
pub struct KindChanges {
    pub kind: TemplateKind,
    pub changes: Vec<FieldChange>,
}

pub open spec fn kinds_model(v: Seq<KindChanges>) -> Seq<(TemplateKind, Seq<FieldModel>)> {
    v.map_values(|c: KindChanges| (c.kind, fields_model(c.changes@)))
}

/// Layout changes of `kind` between two settings.
pub open spec fn kind_changes_model(a: AppConfig, b: AppConfig, kind: TemplateKind) -> Seq<FieldModel> {
    profile_changes_model(profile_of(a, kind), profile_of(b, kind))
}

/// The kinds among the first `k` of every kind whose layout changed, with
/// their changes.
pub open spec fn profile_set_model(a: AppConfig, b: AppConfig, k: int) -> Seq<(TemplateKind, Seq<FieldModel>)>
    decreases k,
{
    if k <= 0 {
        seq![]
    } else {
        let prev = profile_set_model(a, b, k - 1);
        let kind = all_kinds()[k - 1];
        let changes = kind_changes_model(a, b, kind);
        if changes.len() > 0 {
            prev.push((kind, changes))
        } else {
            prev
        }
    }
}

/// Two blank profiles of a kind compare alike against any profile.
proof fn lemma_blank_profiles_agree(p: TemplateProfile, q: TemplateProfile, kind: TemplateKind, x: TemplateProfile)
    requires
        is_blank_profile(p, kind),
        is_blank_profile(q, kind),
    ensures
        profile_items(p, x) == profile_items(q, x),
        profile_items(x, p) == profile_items(x, q),
{
    assert(p.issuing_unit@ =~= q.issuing_unit@);
    assert(p.joint_issuing_units@ =~= q.joint_issuing_units@);
    assert(p.main_issuing_unit@ =~= q.main_issuing_unit@);
    assert(p.department_code@ =~= q.department_code@);
    assert(p.document_year@ =~= q.document_year@);
    assert(p.recipient@ =~= q.recipient@);
    assert(p.copies_to@ =~= q.copies_to@);
    assert(p.responsible_unit@ =~= q.responsible_unit@);
    assert(p.joint_responsible_units@ =~= q.joint_responsible_units@);
    assert(p.contact_person@ =~= q.contact_person@);
    assert(p.contact_phone@ =~= q.contact_phone@);
    assert(p.reporting_leaders@ =~= q.reporting_leaders@);
    assert(p.signing_unit@ =~= q.signing_unit@);
    assert(p.security_level@ =~= q.security_level@);
    assert(p.security_period@ =~= q.security_period@);
    assert(p.document_number@ =~= q.document_number@);
    assert(p.meeting_location@ =~= q.meeting_location@);
    assert(p.joint_contacts@ =~= q.joint_contacts@);
    assert(profile_items(p, x) =~= profile_items(q, x));
    assert(profile_items(x, p) =~= profile_items(x, q));
}

/// The profile that `c` gives `kind`: the saved one, or `blank`.
fn pick_profile<'a>(c: &'a AppConfig, kind: TemplateKind, blank: &'a TemplateProfile) -> (r: &'a TemplateProfile)
    requires
        is_blank_profile(*blank, kind),
    ensures
        profile_items(*r, *r) == profile_items(profile_of(*c, kind), profile_of(*c, kind)),
        forall|x: TemplateProfile| #![auto] profile_items(*r, x) == profile_items(profile_of(*c, kind), x),
        forall|x: TemplateProfile| #![auto] profile_items(x, *r) == profile_items(x, profile_of(*c, kind)),
{
    match c.saved_profile(kind) {
        Some(k) => &c.profiles[k],
        None => {
            proof {
                let q = profile_of(*c, kind);
                assert(is_blank_profile(q, kind));
                assert forall|x: TemplateProfile| #![auto] profile_items(*blank, x) == profile_items(q, x) by {
                    lemma_blank_profiles_agree(*blank, q, kind, x);
                }
                assert forall|x: TemplateProfile| #![auto] profile_items(x, *blank) == profile_items(x, q) by {
                    lemma_blank_profiles_agree(*blank, q, kind, x);
                }
                lemma_blank_profiles_agree(*blank, q, kind, *blank);
                lemma_blank_profiles_agree(*blank, q, kind, q);
            }
            blank
        },
    }
}

/// Layout changes of every kind whose profile differs, in the order of the
/// kinds.
fn profile_set_changes(a: &AppConfig, b: &AppConfig) -> (r: Vec<KindChanges>)
    ensures
        kinds_model(r@) == profile_set_model(*a, *b, all_kinds().len() as int),
{
    let kinds = TemplateKind::all();
    let mut out: Vec<KindChanges> = Vec::new();
    let mut i: usize = 0;
    while i < kinds.len()
        invariant
            kinds@ == all_kinds(),
            i <= kinds.len(),
            kinds_model(out@) == profile_set_model(*a, *b, i as int),
        decreases kinds.len() - i,
    {
        let kind = kinds[i];
        let blank = TemplateProfile::blank(kind);
        let pa = pick_profile(a, kind, &blank);
        let pb = pick_profile(b, kind, &blank);
        let changes = profile_changes(pa, pb);
        let ghost before = kinds_model(out@);
        proof {
            assert(profile_items(*pa, *pb) == profile_items(profile_of(*a, kind), *pb));
            assert(profile_items(profile_of(*a, kind), *pb) == profile_items(profile_of(*a, kind), profile_of(*b, kind)));
        }
        if changes.len() > 0 {
            let ghost cm = fields_model(changes@);
            out.push(KindChanges { kind, changes });
            assert(kinds_model(out@) =~= before.push((kind, cm)));
        }
        i += 1;
    }
    out
}

// ---------------------------------------------------------------------------
// Settings versions.

/// Comparison of two settings: vocabulary, layout profiles and preferences.
#[derive(Debug, Clone, Default)]
pub struct ConfigChangeReport {
    pub vocabulary: Vec<VocabChange>,
    pub profiles: Vec<KindChanges>,
    pub settings: Vec<FieldChange>,
}

/// Compare two settings.
pub fn config_changes(a: &AppConfig, b: &AppConfig) -> (r: ConfigChangeReport)
    ensures
        vocab_changes_model_of(r.vocabulary@) == vocab_model(a.vocabulary@, b.vocabulary@),
        kinds_model(r.profiles@) == profile_set_model(*a, *b, all_kinds().len() as int),
        fields_model(r.settings@) == settings_changes_model(*a, *b),
        forall|i: int| 0 <= i < r.profiles.len() ==> #[trigger] r.profiles@[i].changes.len() > 0,
{
    let report = ConfigChangeReport {
        vocabulary: vocab_changes(a, b),
        profiles: profile_set_changes(a, b),
        settings: settings_changes(a, b),
    };
    proof {
        assert forall|i: int| 0 <= i < report.profiles.len() implies #[trigger] report.profiles@[i].changes.len() > 0 by {
            lemma_profile_set_nonempty(*a, *b, all_kinds().len() as int, i);
            assert(kinds_model(report.profiles@)[i] == (report.profiles@[i].kind, fields_model(report.profiles@[i].changes@)));
        }
    }
    report
}

proof fn lemma_profile_set_nonempty(a: AppConfig, b: AppConfig, k: int, i: int)
    requires
        0 <= i < profile_set_model(a, b, k).len(),
    ensures
        profile_set_model(a, b, k)[i].1.len() > 0,
    decreases k,
{
    if k > 0 {
        let prev = profile_set_model(a, b, k - 1);
        if i < prev.len() {
            lemma_profile_set_nonempty(a, b, k - 1, i);
        }
    }
}

// ---------------------------------------------------------------------------
// Manuscript versions.

/// Full comparison of two versions of a manuscript.
#[derive(Debug, Clone, Default)]
pub struct ManuscriptDiff {
    /// Changes of the document elements, the layout included.
    pub fields: Vec<FieldChange>,
    pub body: BodyDiff,
    /// The change of the notes; `None` when they are unchanged.
    pub notes: Option<FieldChange>,
}

impl ManuscriptDiff {
    pub fn is_empty(&self) -> (r: bool)
        ensures
            r == (self.fields.len() == 0 && self.body.changed_count == 0 && self.notes is None),
    {
        self.fields.len() == 0 && self.body.is_empty() && self.notes.is_none()
    }

    /// Number of changed items, for hints such as "3 changes".
    pub fn total(&self) -> (r: usize)
        requires
            self.fields.len() + self.body.changed_count < usize::MAX,
        ensures
            r == self.fields.len() + self.body.changed_count + if self.notes is Some { 1int } else { 0int },
    {
        let n: usize = if self.notes.is_some() { 1 } else { 0 };
        self.fields.len() + self.body.changed_count + n
    }
}

/// The content of a manuscript at one moment: a saved version, or what the
/// drafting page holds now.
#[derive(Debug, Clone)]
pub struct ContentSnapshot {
    pub snapshot: DraftInput,
    pub content_markdown: String,
    pub notes: String,
}

impl ContentSnapshot {
    pub fn new(snapshot: DraftInput, content_markdown: String, notes: String) -> (r: Self)
        ensures
            r.snapshot == snapshot,
            r.content_markdown == content_markdown,
            r.notes == notes,
    {
        ContentSnapshot { snapshot, content_markdown, notes }
    }
}

impl From<VersionRecord> for ContentSnapshot {
    fn from(record: VersionRecord) -> (r: Self) {
        ContentSnapshot {
            snapshot: record.snapshot,
            content_markdown: record.content_markdown,
            notes: record.notes,
        }
    }
}

impl vstd::std_specs::convert::FromSpecImpl<VersionRecord> for ContentSnapshot {
    open spec fn obeys_from_spec() -> bool {
        true
    }

    open spec fn from_spec(record: VersionRecord) -> Self {
        ContentSnapshot {
            snapshot: record.snapshot,
            content_markdown: record.content_markdown,
            notes: record.notes,
        }
    }
}

/// Compare two versions of a manuscript. The order of the arguments is the
/// direction of the comparison: `old` on the left, `new` on the right.
pub fn manuscript_diff(old: &ContentSnapshot, new: &ContentSnapshot) -> (d: ManuscriptDiff)
    ensures
        fields_model(d.fields@) == draft_changes_model(old.snapshot, new.snapshot),
        d.body.model() == body_model(old.content_markdown@, new.content_markdown@),
        d.body.changed_count == count_changed(d.body.model()),
        d.notes is Some <==> old.notes@ != new.notes@,
        d.notes matches Some(n) ==> n.label@ == "备注"@ && n.before@ == old.notes@ && n.after@ == new.notes@,
{
    let mut notes: Vec<FieldChange> = Vec::new();
    field(&mut notes, "备注", old.notes.clone(), new.notes.clone());
    let fields = draft_changes(&old.snapshot, &new.snapshot);
    let body = body_diff(old.content_markdown.as_str(), new.content_markdown.as_str());
    let ghost before_pop = notes@;
    let last = notes.pop();
    proof {
        if old.notes@ != new.notes@ {
            assert(fields_model(before_pop) =~= seq![("备注"@, old.notes@, new.notes@)]);
            assert(fields_model(before_pop)[0] == (before_pop[0].label@, before_pop[0].before@, before_pop[0].after@));
        } else {
            assert(fields_model(before_pop).len() == 0);
        }
    }
    ManuscriptDiff { fields, body, notes: last }
}


// ---------------------------------------------------------------------------
// Properties of the character-level comparison.

/// The text of a run of pieces, read left to right.
pub open spec fn spans_text(sp: Seq<SpanModel>) -> Seq<char>
    decreases sp.len(),
{
    if sp.len() == 0 {
        seq![]
    } else {
        spans_text(sp.drop_last()) + sp.last().1
    }
}

/// Whether no piece of a run has kind `kind`.
pub open spec fn lacks_kind(sp: Seq<SpanModel>, kind: SpanKind) -> bool {
    forall|k: int| 0 <= k < sp.len() ==> #[trigger] sp[k].0 != kind
}

/// Tokens glued back together.
pub open spec fn join_tokens(ts: Seq<Seq<char>>) -> Seq<char>
    decreases ts.len(),
{
    if ts.len() == 0 {
        seq![]
    } else {
        join_tokens(ts.drop_last()) + ts.last()
    }
}

/// The tokens at positions `idx`, glued together.
pub open spec fn join_at(ts: Seq<Seq<char>>, idx: Seq<int>) -> Seq<char>
    decreases idx.len(),
{
    if idx.len() == 0 {
        seq![]
    } else {
        join_at(ts, idx.drop_last()) + ts[idx.last()]
    }
}

proof fn lemma_push_merge_text(sp: Seq<SpanModel>, kind: SpanKind, text: Seq<char>)
    ensures
        spans_text(push_merge(sp, kind, text)) == spans_text(sp) + text,
        forall|other: SpanKind| other != kind && lacks_kind(sp, other) ==> lacks_kind(push_merge(sp, kind, text), other),
{
    let r = push_merge(sp, kind, text);
    if sp.len() > 0 && sp.last().0 == kind {
        assert(r.drop_last() =~= sp.drop_last());
        assert(spans_text(sp) == spans_text(sp.drop_last()) + sp.last().1);
        assert(spans_text(r) =~= spans_text(sp) + text);
        assert forall|other: SpanKind| other != kind && lacks_kind(sp, other) implies lacks_kind(r, other) by {
            assert forall|k: int| 0 <= k < r.len() implies #[trigger] r[k].0 != other by {
                if k < sp.len() - 1 {
                    assert(r[k] == sp[k]);
                }
            }
        }
    } else {
        assert(r.drop_last() =~= sp);
        assert forall|other: SpanKind| other != kind && lacks_kind(sp, other) implies lacks_kind(r, other) by {
            assert forall|k: int| 0 <= k < r.len() implies #[trigger] r[k].0 != other by {
                if k < sp.len() {
                    assert(r[k] == sp[k]);
                }
            }
        }
    }
}

/// What one step adds to the old side of a script.
pub open spec fn old_step(op: DiffOp) -> Seq<int> {
    match op {
        DiffOp::Same(i, _) => seq![i as int],
        DiffOp::Delete(i) => seq![i as int],
        DiffOp::Insert(_) => Seq::<int>::empty(),
    }
}

/// What one step adds to the new side of a script.
pub open spec fn new_step(op: DiffOp) -> Seq<int> {
    match op {
        DiffOp::Same(_, j) => seq![j as int],
        DiffOp::Insert(j) => seq![j as int],
        DiffOp::Delete(_) => Seq::<int>::empty(),
    }
}

proof fn lemma_old_indices_push(ops: Seq<DiffOp>, op: DiffOp)
    ensures
        old_indices(ops.push(op)) == old_indices(ops) + old_step(op),
        new_indices(ops.push(op)) == new_indices(ops) + new_step(op),
    decreases ops.len(),
{
    let p = ops.push(op);
    if ops.len() > 0 {
        lemma_old_indices_push(ops.drop_first(), op);
        assert(p.drop_first() =~= ops.drop_first().push(op));
        assert(p[0] == ops[0]);
        assert(old_indices(p) == old_step(ops[0]) + old_indices(p.drop_first()));
        assert(old_indices(ops) == old_step(ops[0]) + old_indices(ops.drop_first()));
        assert(new_indices(p) == new_step(ops[0]) + new_indices(p.drop_first()));
        assert(new_indices(ops) == new_step(ops[0]) + new_indices(ops.drop_first()));
        assert(old_indices(p) =~= old_indices(ops) + old_step(op));
        assert(new_indices(p) =~= new_indices(ops) + new_step(op));
    } else {
        assert(p.drop_first() =~= Seq::<DiffOp>::empty());
        assert(p[0] == op);
        assert(old_indices(p) == old_step(op) + old_indices(p.drop_first()));
        assert(new_indices(p) == new_step(op) + new_indices(p.drop_first()));
        assert(old_indices(p) =~= old_indices(ops) + old_step(op));
        assert(new_indices(p) =~= new_indices(ops) + new_step(op));
    }
}

proof fn lemma_spans_before_text(ops: Seq<DiffOp>, ta: Seq<Seq<char>>)
    ensures
        spans_text(spans_before(ops, ta)) == join_at(ta, old_indices(ops)),
        lacks_kind(spans_before(ops, ta), SpanKind::Added),
    decreases ops.len(),
{
    if ops.len() > 0 {
        let prev = ops.drop_last();
        lemma_spans_before_text(prev, ta);
        lemma_old_indices_push(prev, ops.last());
        assert(prev.push(ops.last()) =~= ops);
        let ps = spans_before(prev, ta);
        match ops.last() {
            DiffOp::Same(i, _) => {
                lemma_push_merge_text(ps, SpanKind::Same, ta[i as int]);
                let idx = old_indices(ops);
                assert(idx.drop_last() =~= old_indices(prev));
            },
            DiffOp::Delete(i) => {
                lemma_push_merge_text(ps, SpanKind::Removed, ta[i as int]);
                let idx = old_indices(ops);
                assert(idx.drop_last() =~= old_indices(prev));
            },
            DiffOp::Insert(_) => {
                assert(old_indices(ops) =~= old_indices(prev));
            },
        }
    } else {
        assert(lacks_kind(spans_before(ops, ta), SpanKind::Added));
    }
}

proof fn lemma_spans_after_text(ops: Seq<DiffOp>, tb: Seq<Seq<char>>)
    ensures
        spans_text(spans_after(ops, tb)) == join_at(tb, new_indices(ops)),
        lacks_kind(spans_after(ops, tb), SpanKind::Removed),
    decreases ops.len(),
{
    if ops.len() > 0 {
        let prev = ops.drop_last();
        lemma_spans_after_text(prev, tb);
        lemma_old_indices_push(prev, ops.last());
        assert(prev.push(ops.last()) =~= ops);
        let ps = spans_after(prev, tb);
        match ops.last() {
            DiffOp::Same(_, j) => {
                lemma_push_merge_text(ps, SpanKind::Same, tb[j as int]);
                let idx = new_indices(ops);
                assert(idx.drop_last() =~= new_indices(prev));
            },
            DiffOp::Insert(j) => {
                lemma_push_merge_text(ps, SpanKind::Added, tb[j as int]);
                let idx = new_indices(ops);
                assert(idx.drop_last() =~= new_indices(prev));
            },
            DiffOp::Delete(_) => {
                assert(new_indices(ops) =~= new_indices(prev));
            },
        }
    } else {
        assert(lacks_kind(spans_after(ops, tb), SpanKind::Removed));
    }
}

proof fn lemma_join_range(ts: Seq<Seq<char>>, n: int)
    requires
        0 <= n <= ts.len(),
    ensures
        join_at(ts, range_seq(0, n)) == join_tokens(ts.take(n)),
    decreases n,
{
    if n > 0 {
        lemma_join_range(ts, n - 1);
        assert(range_seq(0, n).drop_last() =~= range_seq(0, n - 1));
        assert(ts.take(n).drop_last() =~= ts.take(n - 1));
    } else {
        assert(range_seq(0, 0) =~= Seq::<int>::empty());
    }
}

proof fn lemma_join_tokens_prepend(t: Seq<char>, ts: Seq<Seq<char>>)
    ensures
        join_tokens(seq![t] + ts) == t + join_tokens(ts),
    decreases ts.len(),
{
    let u = seq![t] + ts;
    if ts.len() == 0 {
        assert(u =~= seq![t]);
        assert(u.drop_last() =~= Seq::<Seq<char>>::empty());
        assert(join_tokens(u) == join_tokens(u.drop_last()) + u.last());
        assert(t + join_tokens(ts) =~= t);
        assert(join_tokens(u) =~= t);
    } else {
        lemma_join_tokens_prepend(t, ts.drop_last());
        assert(u.drop_last() =~= seq![t] + ts.drop_last());
        assert(u.last() == ts.last());
        assert(join_tokens(u) == join_tokens(u.drop_last()) + u.last());
        assert(t + join_tokens(ts) =~= t + join_tokens(ts.drop_last()) + ts.last());
    }
}

proof fn lemma_tokens_rebuild(s: Seq<char>, i: int)
    requires
        0 <= i <= s.len(),
    ensures
        join_tokens(tokens_from(s, i)) == s.subrange(i, s.len() as int),
        tokens_from(s, i).len() <= s.len() - i,
    decreases s.len() - i,
{
    if i < s.len() {
        let e = if is_alnum(s[i]) {
            alnum_end(s, i + 1)
        } else {
            i + 1
        };
        lemma_alnum_end(s, i + 1);
        assert(i < e <= s.len());
        lemma_tokens_rebuild(s, e);
        lemma_join_tokens_prepend(s.subrange(i, e), tokens_from(s, e));
        assert(s.subrange(i, e) + s.subrange(e, s.len() as int) =~= s.subrange(i, s.len() as int));
    } else {
        assert(s.subrange(i, s.len() as int) =~= Seq::<char>::empty());
    }
}

/// Reading the pieces of a rewritten line gives the line back: the old side
/// read in order is the old line and holds no added piece, the new side read
/// in order is the new line and holds no removed piece.
pub proof fn lemma_inline_spans_rebuild(before: Seq<char>, after: Seq<char>)
    requires
        before.len() <= usize::MAX,
        after.len() <= usize::MAX,
    ensures
        spans_text(inline_model(before, after).0) == before,
        spans_text(inline_model(before, after).1) == after,
        lacks_kind(inline_model(before, after).0, SpanKind::Added),
        lacks_kind(inline_model(before, after).1, SpanKind::Removed),
{
    let ta = tokens(before);
    let tb = tokens(after);
    lemma_tokens_rebuild(before, 0);
    lemma_tokens_rebuild(after, 0);
    assert(before.subrange(0, before.len() as int) =~= before);
    assert(after.subrange(0, after.len() as int) =~= after);
    if ta.len() * tb.len() > INLINE_TOKEN_BUDGET {
        let l = seq![(SpanKind::Removed, before)];
        let r = seq![(SpanKind::Added, after)];
        assert(l.drop_last() =~= Seq::<SpanModel>::empty());
        assert(r.drop_last() =~= Seq::<SpanModel>::empty());
        assert(spans_text(l) == spans_text(l.drop_last()) + l.last().1);
        assert(spans_text(r) == spans_text(r.drop_last()) + r.last().1);
        assert(spans_text(l) =~= before);
        assert(spans_text(r) =~= after);
    } else {
        let ops = script(ta, tb, 0, 0);
        lemma_script_aligns(ta, tb, 0, 0);
        lemma_spans_before_text(ops, ta);
        lemma_spans_after_text(ops, tb);
        lemma_join_range(ta, ta.len() as int);
        lemma_join_range(tb, tb.len() as int);
        assert(ta.take(ta.len() as int) =~= ta);
        assert(tb.take(tb.len() as int) =~= tb);
    }
}


// ---------------------------------------------------------------------------
// Properties of the field comparison.

/// A field change seen from the other side.
pub open spec fn swap_field(f: FieldModel) -> FieldModel {
    (f.0, f.2, f.1)
}

/// Every field change of a list seen from the other side.
pub open spec fn swapped(v: Seq<FieldModel>) -> Seq<FieldModel> {
    v.map_values(|f: FieldModel| swap_field(f))
}

/// A change list holds exactly the differing fields of its checklist: every
/// listed field differs and is a field of the checklist, and the list is
/// empty exactly when every checked field is unchanged.
pub proof fn lemma_changed_lists_differences(items: Seq<FieldModel>)
    ensures
        forall|i: int|
            0 <= i < changed(items).len() ==> #[trigger] changed(items)[i].1 != changed(items)[i].2
                && items.contains(changed(items)[i]),
        changed(items).len() == 0 <==> forall|j: int| 0 <= j < items.len() ==> #[trigger] items[j].1 == items[j].2,
    decreases items.len(),
{
    if items.len() > 0 {
        let prev = items.drop_last();
        lemma_changed_lists_differences(prev);
        let c = changed(items);
        let cp = changed(prev);
        assert forall|i: int| 0 <= i < c.len() implies #[trigger] c[i].1 != c[i].2 && items.contains(c[i]) by {
            if i < cp.len() {
                assert(c[i] == cp[i]);
                assert(cp[i].1 != cp[i].2);
                assert(prev.contains(cp[i]));
                let w = choose|w: int| 0 <= w < prev.len() && prev[w] == cp[i];
                assert(items[w] == prev[w]);
            } else {
                assert(c[i] == items.last());
                assert(items[items.len() - 1] == items.last());
            }
        }
        if c.len() == 0 {
            assert forall|j: int| 0 <= j < items.len() implies #[trigger] items[j].1 == items[j].2 by {
                if j < prev.len() {
                    assert(prev[j] == items[j]);
                }
            }
        }
        if forall|j: int| 0 <= j < items.len() ==> #[trigger] items[j].1 == items[j].2 {
            assert forall|j: int| 0 <= j < prev.len() implies #[trigger] prev[j].1 == prev[j].2 by {
                assert(prev[j] == items[j]);
            }
            assert(items[items.len() - 1].1 == items[items.len() - 1].2);
        }
    }
}

proof fn lemma_changed_swap(items: Seq<FieldModel>)
    ensures
        changed(swapped(items)) == swapped(changed(items)),
    decreases items.len(),
{
    if items.len() == 0 {
        assert(swapped(items) =~= Seq::<FieldModel>::empty());
        assert(swapped(changed(items)) =~= Seq::<FieldModel>::empty());
    } else {
        lemma_changed_swap(items.drop_last());
        assert(swapped(items).drop_last() =~= swapped(items.drop_last()));
        assert(swapped(items).last() == swap_field(items.last()));
        let cp = changed(items.drop_last());
        if items.last().1 != items.last().2 {
            assert(swapped(cp.push(items.last())) =~= swapped(cp).push(swap_field(items.last())));
        }
    }
}

proof fn lemma_swapped_concat(x: Seq<FieldModel>, y: Seq<FieldModel>)
    ensures
        swapped(x + y) == swapped(x) + swapped(y),
{
    assert(swapped(x + y) =~= swapped(x) + swapped(y));
}

/// Comparing two profiles the other way round swaps the two values of every
/// listed change and lists the same fields.
#[verifier::spinoff_prover]
#[verifier::rlimit(40)]
pub proof fn lemma_profile_changes_reverse(a: TemplateProfile, b: TemplateProfile)
    ensures
        profile_changes_model(b, a) == swapped(profile_changes_model(a, b)),
{
    assert(profile_items(b, a) =~= swapped(profile_items(a, b)));
    lemma_changed_swap(profile_items(a, b));
}

/// Comparing two drafts the other way round swaps the two values of every
/// listed change and lists the same fields.
pub proof fn lemma_draft_changes_reverse(a: DraftInput, b: DraftInput)
    ensures
        draft_changes_model(b, a) == swapped(draft_changes_model(a, b)),
{
    assert(draft_items(b, a) =~= swapped(draft_items(a, b)));
    lemma_changed_swap(draft_items(a, b));
    lemma_profile_changes_reverse(a.profile, b.profile);
    lemma_swapped_concat(changed(draft_items(a, b)), profile_changes_model(a.profile, b.profile));
}

proof fn lemma_changed_none(items: Seq<FieldModel>)
    requires
        forall|j: int| 0 <= j < items.len() ==> #[trigger] items[j].1 == items[j].2,
    ensures
        changed(items).len() == 0,
{
    lemma_changed_lists_differences(items);
}

/// A draft compared with itself has no field change, its profile included.
pub proof fn lemma_same_draft_no_changes(d: DraftInput)
    ensures
        draft_changes_model(d, d).len() == 0,
        profile_changes_model(d.profile, d.profile).len() == 0,
{
    let di = draft_items(d, d);
    assert forall|j: int| 0 <= j < di.len() implies #[trigger] di[j].1 == di[j].2 by {}
    lemma_changed_none(di);
    let pi = profile_items(d.profile, d.profile);
    assert forall|j: int| 0 <= j < pi.len() implies #[trigger] pi[j].1 == pi[j].2 by {}
    lemma_changed_none(pi);
}

// ---------------------------------------------------------------------------
// Properties of the body comparison.

proof fn lemma_script_self_keeps(a: Seq<Seq<char>>, i: int)
    requires
        0 <= i <= a.len(),
    ensures
        forall|k: int| 0 <= k < script(a, a, i, i).len() ==> #[trigger] script(a, a, i, i)[k] is Same,
    decreases a.len() - i,
{
    if i < a.len() {
        lemma_script_self_keeps(a, i + 1);
        let s = script(a, a, i, i);
        assert(s == seq![DiffOp::Same(i as usize, i as usize)] + script(a, a, i + 1, i + 1));
        assert forall|k: int| 0 <= k < s.len() implies #[trigger] s[k] is Same by {
            if k > 0 {
                assert(s[k] == script(a, a, i + 1, i + 1)[k - 1]);
            }
        }
    }
}

proof fn lemma_segments_keep(ops: Seq<DiffOp>)
    requires
        forall|k: int| 0 <= k < ops.len() ==> #[trigger] ops[k] is Same,
    ensures
        forall|t: int| 0 <= t < segments(ops).len() ==> #[trigger] segments(ops)[t] is Keep,
    decreases ops.len(),
{
    if ops.len() > 0 {
        let prev = ops.drop_last();
        assert forall|k: int| 0 <= k < prev.len() implies #[trigger] prev[k] is Same by {
            assert(prev[k] == ops[k]);
        }
        lemma_segments_keep(prev);
        assert(ops[ops.len() - 1] is Same);
    }
}

proof fn lemma_count_changed_concat(x: Seq<BlockModel>, y: Seq<BlockModel>)
    ensures
        count_changed(x + y) == count_changed(x) + count_changed(y),
    decreases y.len(),
{
    if y.len() == 0 {
        assert(x + y =~= x);
    } else {
        lemma_count_changed_concat(x, y.drop_last());
        assert((x + y).drop_last() =~= x + y.drop_last());
        assert((x + y).last() == y.last());
    }
}

proof fn lemma_render_keep(segs: Seq<Seg>, ol: Seq<SourceLine>, nl: Seq<SourceLine>)
    requires
        forall|t: int| 0 <= t < segs.len() ==> #[trigger] segs[t] is Keep,
    ensures
        count_changed(render(segs, ol, nl)) == 0,
    decreases segs.len(),
{
    if segs.len() > 0 {
        let prev = segs.drop_last();
        assert forall|t: int| 0 <= t < prev.len() implies #[trigger] prev[t] is Keep by {
            assert(prev[t] == segs[t]);
        }
        lemma_render_keep(prev, ol, nl);
        assert(segs[segs.len() - 1] is Keep);
        assert(segs.last() is Keep);
        let m = seg_model(segs.last(), ol, nl);
        lemma_count_changed_concat(render(prev, ol, nl), m);
        assert(m.len() == 1 && m.last() is Unchanged);
        assert(m.drop_last() =~= Seq::<BlockModel>::empty());
        assert(count_changed(m) == count_changed(m.drop_last()));
    }
}

/// A text compared with itself has no changed block.
pub proof fn lemma_same_text_no_changes(s: Seq<char>)
    ensures
        count_changed(body_model(s, s)) == 0,
{
    let ol = source_lines(s);
    let keys = line_keys(ol);
    lemma_script_self_keeps(keys, 0);
    lemma_segments_keep(script(keys, keys, 0, 0));
    lemma_render_keep(segments(script(keys, keys, 0, 0)), ol, ol);
}

/// Blank lines, and the spaces around a line, are no content: two texts
/// whose non-blank lines read the same, trimmed, have no changed block.
pub proof fn lemma_blank_lines_are_no_change(old: Seq<char>, new: Seq<char>)
    requires
        line_keys(source_lines(old)) == line_keys(source_lines(new)),
    ensures
        count_changed(body_model(old, new)) == 0,
{
    let ol = source_lines(old);
    let nl = source_lines(new);
    let keys = line_keys(ol);
    lemma_script_self_keeps(keys, 0);
    lemma_segments_keep(script(keys, keys, 0, 0));
    lemma_render_keep(segments(script(keys, keys, 0, 0)), ol, nl);
}

/// A manuscript version compared with itself is empty: no field change, no
/// changed block, and the notes agree.
pub proof fn lemma_same_content_no_changes(c: ContentSnapshot)
    ensures
        draft_changes_model(c.snapshot, c.snapshot).len() == 0,
        count_changed(body_model(c.content_markdown@, c.content_markdown@)) == 0,
{
    lemma_same_draft_no_changes(c.snapshot);
    lemma_same_text_no_changes(c.content_markdown@);
}

/// A manuscript comparison is empty exactly when it counts no change.
pub proof fn lemma_empty_iff_total_zero(d: ManuscriptDiff)
    ensures
        (d.fields.len() == 0 && d.body.changed_count == 0 && d.notes is None) <==> d.fields.len()
            + d.body.changed_count + (if d.notes is Some { 1int } else { 0int }) == 0,
{
}

/// Comparing settings with themselves finds no layout and no setting
/// changed.
pub proof fn lemma_same_config_no_changes(a: AppConfig)
    ensures
        profile_set_model(a, a, all_kinds().len() as int).len() == 0,
        settings_changes_model(a, a).len() == 0,
{
    let si = settings_items(a, a);
    assert forall|j: int| 0 <= j < si.len() implies #[trigger] si[j].1 == si[j].2 by {
        let c = connection_items(a.lm_studio, a.lm_studio);
        let o = output_items(a, a);
        let b = behaviour_items(a, a);
        let x = secrecy_items(a.security_rules, a.security_rules);
        assert(si == c + o + b + x);
        if j < c.len() {
            assert(si[j] == c[j]);
        } else if j < c.len() + o.len() {
            assert(si[j] == o[j - c.len()]);
        } else if j < c.len() + o.len() + b.len() {
            assert(si[j] == b[j - c.len() - o.len()]);
        } else {
            assert(si[j] == x[j - c.len() - o.len() - b.len()]);
        }
    }
    lemma_changed_none(si);
    lemma_profile_set_same(a, all_kinds().len() as int);
}

proof fn lemma_profile_set_same(a: AppConfig, k: int)
    ensures
        profile_set_model(a, a, k).len() == 0,
    decreases k,
{
    if k > 0 {
        lemma_profile_set_same(a, k - 1);
        let p = profile_of(a, all_kinds()[k - 1]);
        let pi = profile_items(p, p);
        assert forall|j: int| 0 <= j < pi.len() implies #[trigger] pi[j].1 == pi[j].2 by {}
        lemma_changed_none(pi);
    }
}

/// The API key is never reported, only whether one is set: two settings
/// that differ only in a key, both keys set, compare as unchanged.
pub proof fn lemma_api_key_masked(a: AppConfig, b: AppConfig)
    requires
        b.lm_studio.base_url == a.lm_studio.base_url,
        b.lm_studio.model == a.lm_studio.model,
        b.lm_studio.temperature == a.lm_studio.temperature,
        b.lm_studio.max_tokens == a.lm_studio.max_tokens,
        b.lm_studio.timeout_seconds == a.lm_studio.timeout_seconds,
        b.output_dir == a.output_dir,
        b.export == a.export,
        b.security_rules == a.security_rules,
        b.auto_export == a.auto_export,
        b.allow_free_text == a.allow_free_text,
        b.show_editor_line_numbers == a.show_editor_line_numbers,
        a.lm_studio.api_key@.len() > 0,
        b.lm_studio.api_key@.len() > 0,
    ensures
        settings_changes_model(a, b).len() == 0,
{
    let si = settings_items(a, b);
    assert(output_items(a, b) == output_items(a, a));
    assert(behaviour_items(a, b) == behaviour_items(a, a));
    assert(secrecy_items(a.security_rules, b.security_rules) == secrecy_items(a.security_rules, a.security_rules));
    let c = connection_items(a.lm_studio, b.lm_studio);
    assert forall|j: int| 0 <= j < c.len() implies #[trigger] c[j].1 == c[j].2 by {}
    assert forall|j: int| 0 <= j < si.len() implies #[trigger] si[j].1 == si[j].2 by {
        let o = output_items(a, a);
        let bh = behaviour_items(a, a);
        let x = secrecy_items(a.security_rules, a.security_rules);
        assert(si == c + o + bh + x);
        if j < c.len() {
            assert(si[j] == c[j]);
        } else if j < c.len() + o.len() {
            assert(si[j] == o[j - c.len()]);
        } else if j < c.len() + o.len() + bh.len() {
            assert(si[j] == bh[j - c.len() - o.len()]);
        } else {
            assert(si[j] == x[j - c.len() - o.len() - bh.len()]);
        }
    }
    lemma_changed_none(si);
}

proof fn lemma_last_index_distinct(v: Seq<VocabularyEntry>, k: int)
    requires
        0 <= k < v.len(),
        forall|i: int, j: int| 0 <= i < j < v.len() ==> v[i].id != v[j].id,
    ensures
        last_index(v, v[k].id) == k,
    decreases v.len(),
{
    if k < v.len() - 1 {
        let d = v.drop_last();
        assert(v.last() == v[v.len() - 1]);
        assert(v.last().id != v[k].id);
        assert forall|i: int, j: int| 0 <= i < j < d.len() implies d[i].id != d[j].id by {
            assert(d[i] == v[i] && d[j] == v[j]);
        }
        lemma_last_index_distinct(d, k);
        assert(d[k] == v[k]);
    }
}

/// A vocabulary compared with itself reports nothing, when each entry has
/// its own identity. (With two entries sharing an identity, the first is
/// compared with the last and may show as modified.)
pub proof fn lemma_same_vocabulary_no_changes(a: Seq<VocabularyEntry>)
    requires
        forall|i: int, j: int| 0 <= i < j < a.len() ==> a[i].id != a[j].id,
    ensures
        vocab_model(a, a).len() == 0,
{
    lemma_unmatched_none(a, a.len() as int);
    lemma_modified_none(a, a.len() as int);
}

proof fn lemma_unmatched_none(a: Seq<VocabularyEntry>, k: int)
    requires
        k <= a.len(),
    ensures
        unmatched_entries(a, a, k, "新增"@).len() == 0,
        unmatched_entries(a, a, k, "删除"@).len() == 0,
    decreases k,
{
    if k > 0 {
        lemma_unmatched_none(a, k - 1);
        assert(a[k - 1].id == a[k - 1].id);
        assert(has_id(a, a[k - 1].id));
    }
}

proof fn lemma_modified_none(a: Seq<VocabularyEntry>, k: int)
    requires
        k <= a.len(),
        forall|i: int, j: int| 0 <= i < j < a.len() ==> a[i].id != a[j].id,
    ensures
        modified_entries(a, a, k).len() == 0,
    decreases k,
{
    if k > 0 {
        lemma_modified_none(a, k - 1);
        lemma_last_index_distinct(a, k - 1);
        let e = a[k - 1];
        let items = vocab_items(e, e);
        assert forall|j: int| 0 <= j < items.len() implies #[trigger] items[j].1 == items[j].2 by {}
        lemma_changed_none(items);
    }
}

/// A checklist in which only the field at `j` differs lists that field alone.
proof fn lemma_changed_one(items: Seq<FieldModel>, j: int)
    requires
        0 <= j < items.len(),
        items[j].1 != items[j].2,
        forall|i: int| 0 <= i < items.len() && i != j ==> #[trigger] items[i].1 == items[i].2,
    ensures
        changed(items) == seq![items[j]],
{
    let pre = items.take(j);
    let post = items.skip(j + 1);
    let one = seq![items[j]];
    assert(items =~= pre + one + post);
    assert forall|i: int| 0 <= i < pre.len() implies #[trigger] pre[i].1 == pre[i].2 by {
        assert(pre[i] == items[i]);
    }
    assert forall|i: int| 0 <= i < post.len() implies #[trigger] post[i].1 == post[i].2 by {
        assert(post[i] == items[j + 1 + i]);
    }
    lemma_changed_none(pre);
    lemma_changed_none(post);
    lemma_changed_concat(pre, one);
    lemma_changed_concat(pre + one, post);
    assert(one.drop_last() =~= Seq::<FieldModel>::empty());
    assert(changed(one.drop_last()) =~= Seq::<FieldModel>::empty());
    assert(one.last() == items[j]);
    assert(changed(one) =~= one);
    assert(changed(pre) =~= Seq::<FieldModel>::empty());
    assert(changed(post) =~= Seq::<FieldModel>::empty());
    assert(changed(pre) + changed(one) + changed(post) =~= one);
}

/// The profile comparison misses no text field: two profiles that differ
/// in one text field alone give exactly one change, that field's label with
/// its old and new text.
#[verifier::spinoff_prover]
#[verifier::rlimit(60)]
pub proof fn lemma_profile_text_field_changes(a: TemplateProfile, x: String)
    ensures
        x@ != a.issuing_unit@ ==> profile_changes_model(a, TemplateProfile { issuing_unit: x, ..a })
            == seq![("发文单位"@, a.issuing_unit@, x@)],
        x@ != a.joint_issuing_units@ ==> profile_changes_model(a, TemplateProfile { joint_issuing_units: x, ..a })
            == seq![("联合发文单位"@, a.joint_issuing_units@, x@)],
        x@ != a.main_issuing_unit@ ==> profile_changes_model(a, TemplateProfile { main_issuing_unit: x, ..a })
            == seq![("主送单位"@, a.main_issuing_unit@, x@)],
        x@ != a.department_code@ ==> profile_changes_model(a, TemplateProfile { department_code: x, ..a })
            == seq![("机关代字"@, a.department_code@, x@)],
        x@ != a.document_year@ ==> profile_changes_model(a, TemplateProfile { document_year: x, ..a })
            == seq![("发文年份"@, a.document_year@, x@)],
        x@ != a.recipient@ ==> profile_changes_model(a, TemplateProfile { recipient: x, ..a })
            == seq![("主送"@, a.recipient@, x@)],
        x@ != a.copies_to@ ==> profile_changes_model(a, TemplateProfile { copies_to: x, ..a })
            == seq![("抄送"@, a.copies_to@, x@)],
        x@ != a.responsible_unit@ ==> profile_changes_model(a, TemplateProfile { responsible_unit: x, ..a })
            == seq![("承办单位"@, a.responsible_unit@, x@)],
        x@ != a.joint_responsible_units@ ==> profile_changes_model(a, TemplateProfile { joint_responsible_units: x, ..a })
            == seq![("联合承办单位"@, a.joint_responsible_units@, x@)],
        x@ != a.contact_person@ ==> profile_changes_model(a, TemplateProfile { contact_person: x, ..a })
            == seq![("联系人"@, a.contact_person@, x@)],
        x@ != a.contact_phone@ ==> profile_changes_model(a, TemplateProfile { contact_phone: x, ..a })
            == seq![("联系电话"@, a.contact_phone@, x@)],
        x@ != a.reporting_leaders@ ==> profile_changes_model(a, TemplateProfile { reporting_leaders: x, ..a })
            == seq![("呈报领导"@, a.reporting_leaders@, x@)],
        x@ != a.signing_unit@ ==> profile_changes_model(a, TemplateProfile { signing_unit: x, ..a })
            == seq![("落款单位"@, a.signing_unit@, x@)],
        x@ != a.security_level@ ==> profile_changes_model(a, TemplateProfile { security_level: x, ..a })
            == seq![("密级"@, a.security_level@, x@)],
        x@ != a.security_period@ ==> profile_changes_model(a, TemplateProfile { security_period: x, ..a })
            == seq![("保密期限"@, a.security_period@, x@)],
        x@ != a.document_number@ ==> profile_changes_model(a, TemplateProfile { document_number: x, ..a })
            == seq![("文号"@, a.document_number@, x@)],
        x@ != a.meeting_location@ ==> profile_changes_model(a, TemplateProfile { meeting_location: x, ..a })
            == seq![("会议地点"@, a.meeting_location@, x@)],
{
    if x@ != a.issuing_unit@ {
        let it = profile_items(a, TemplateProfile { issuing_unit: x, ..a });
        assert forall|i: int| 0 <= i < it.len() && i != 3 implies #[trigger] it[i].1 == it[i].2 by {}
        lemma_changed_one(it, 3);
    }
    if x@ != a.joint_issuing_units@ {
        let it = profile_items(a, TemplateProfile { joint_issuing_units: x, ..a });
        assert forall|i: int| 0 <= i < it.len() && i != 4 implies #[trigger] it[i].1 == it[i].2 by {}
        lemma_changed_one(it, 4);
    }
    if x@ != a.main_issuing_unit@ {
        let it = profile_items(a, TemplateProfile { main_issuing_unit: x, ..a });
        assert forall|i: int| 0 <= i < it.len() && i != 5 implies #[trigger] it[i].1 == it[i].2 by {}
        lemma_changed_one(it, 5);
    }
    if x@ != a.department_code@ {
        let it = profile_items(a, TemplateProfile { department_code: x, ..a });
        assert forall|i: int| 0 <= i < it.len() && i != 6 implies #[trigger] it[i].1 == it[i].2 by {}
        lemma_changed_one(it, 6);
    }
    if x@ != a.document_year@ {
        let it = profile_items(a, TemplateProfile { document_year: x, ..a });
        assert forall|i: int| 0 <= i < it.len() && i != 7 implies #[trigger] it[i].1 == it[i].2 by {}
        lemma_changed_one(it, 7);
    }
    if x@ != a.recipient@ {
        let it = profile_items(a, TemplateProfile { recipient: x, ..a });
        assert forall|i: int| 0 <= i < it.len() && i != 8 implies #[trigger] it[i].1 == it[i].2 by {}
        lemma_changed_one(it, 8);
    }
    if x@ != a.copies_to@ {
        let it = profile_items(a, TemplateProfile { copies_to: x, ..a });
        assert forall|i: int| 0 <= i < it.len() && i != 9 implies #[trigger] it[i].1 == it[i].2 by {}
        lemma_changed_one(it, 9);
    }
    if x@ != a.responsible_unit@ {
        let it = profile_items(a, TemplateProfile { responsible_unit: x, ..a });
        assert forall|i: int| 0 <= i < it.len() && i != 10 implies #[trigger] it[i].1 == it[i].2 by {}
        lemma_changed_one(it, 10);
    }
    if x@ != a.joint_responsible_units@ {
        let it = profile_items(a, TemplateProfile { joint_responsible_units: x, ..a });
        assert forall|i: int| 0 <= i < it.len() && i != 11 implies #[trigger] it[i].1 == it[i].2 by {}
        lemma_changed_one(it, 11);
    }
    if x@ != a.contact_person@ {
        let it = profile_items(a, TemplateProfile { contact_person: x, ..a });
        assert forall|i: int| 0 <= i < it.len() && i != 12 implies #[trigger] it[i].1 == it[i].2 by {}
        lemma_changed_one(it, 12);
    }
    if x@ != a.contact_phone@ {
        let it = profile_items(a, TemplateProfile { contact_phone: x, ..a });
        assert forall|i: int| 0 <= i < it.len() && i != 13 implies #[trigger] it[i].1 == it[i].2 by {}
        lemma_changed_one(it, 13);
    }
    if x@ != a.reporting_leaders@ {
        let it = profile_items(a, TemplateProfile { reporting_leaders: x, ..a });
        assert forall|i: int| 0 <= i < it.len() && i != 15 implies #[trigger] it[i].1 == it[i].2 by {}
        lemma_changed_one(it, 15);
    }
    if x@ != a.signing_unit@ {
        let it = profile_items(a, TemplateProfile { signing_unit: x, ..a });
        assert forall|i: int| 0 <= i < it.len() && i != 16 implies #[trigger] it[i].1 == it[i].2 by {}
        lemma_changed_one(it, 16);
    }
    if x@ != a.security_level@ {
        let it = profile_items(a, TemplateProfile { security_level: x, ..a });
        assert forall|i: int| 0 <= i < it.len() && i != 17 implies #[trigger] it[i].1 == it[i].2 by {}
        lemma_changed_one(it, 17);
    }
    if x@ != a.security_period@ {
        let it = profile_items(a, TemplateProfile { security_period: x, ..a });
        assert forall|i: int| 0 <= i < it.len() && i != 18 implies #[trigger] it[i].1 == it[i].2 by {}
        lemma_changed_one(it, 18);
    }
    if x@ != a.document_number@ {
        let it = profile_items(a, TemplateProfile { document_number: x, ..a });
        assert forall|i: int| 0 <= i < it.len() && i != 20 implies #[trigger] it[i].1 == it[i].2 by {}
        lemma_changed_one(it, 20);
    }
    if x@ != a.meeting_location@ {
        let it = profile_items(a, TemplateProfile { meeting_location: x, ..a });
        assert forall|i: int| 0 <= i < it.len() && i != 21 implies #[trigger] it[i].1 == it[i].2 by {}
        lemma_changed_one(it, 21);
    }
}

/// The profile comparison misses no choice either: two profiles that differ
/// in one such field alone, shown differently, give exactly one change, that
/// field's label with the two values as shown.
#[verifier::spinoff_prover]
#[verifier::rlimit(60)]
pub proof fn lemma_profile_choice_field_changes(a: TemplateProfile, kind: TemplateKind, correspondence_scope: CorrespondenceScope, joint_issuance_mode: JointIssuanceMode, joint_contacts: Vec<JointContact>, special_handling: bool, letter_version: LetterVersion, style_mode: StyleMode, duplex_printing: bool)
    ensures
        kind_label(a.kind) != kind_label(kind) ==> profile_changes_model(a, TemplateProfile { kind: kind, ..a })
            == seq![("文种"@, kind_label(a.kind), kind_label(kind))],
        scope_label(a.correspondence_scope) != scope_label(correspondence_scope) ==> profile_changes_model(a, TemplateProfile { correspondence_scope: correspondence_scope, ..a })
            == seq![("行文范围"@, scope_label(a.correspondence_scope), scope_label(correspondence_scope))],
        joint_label(a.joint_issuance_mode) != joint_label(joint_issuance_mode) ==> profile_changes_model(a, TemplateProfile { joint_issuance_mode: joint_issuance_mode, ..a })
            == seq![("联合发文模式"@, joint_label(a.joint_issuance_mode), joint_label(joint_issuance_mode))],
        contacts_text(a.joint_contacts@) != contacts_text(joint_contacts@) ==> profile_changes_model(a, TemplateProfile { joint_contacts: joint_contacts, ..a })
            == seq![("联合联系人"@, contacts_text(a.joint_contacts@), contacts_text(joint_contacts@))],
        yes_no_text(a.special_handling) != yes_no_text(special_handling) ==> profile_changes_model(a, TemplateProfile { special_handling: special_handling, ..a })
            == seq![("指人专办"@, yes_no_text(a.special_handling), yes_no_text(special_handling))],
        version_label(a.letter_version) != version_label(letter_version) ==> profile_changes_model(a, TemplateProfile { letter_version: letter_version, ..a })
            == seq![("函稿版本"@, version_label(a.letter_version), version_label(letter_version))],
        style_label(a.style_mode) != style_label(style_mode) ==> profile_changes_model(a, TemplateProfile { style_mode: style_mode, ..a })
            == seq![("正文排版风格"@, style_label(a.style_mode), style_label(style_mode))],
        yes_no_text(a.duplex_printing) != yes_no_text(duplex_printing) ==> profile_changes_model(a, TemplateProfile { duplex_printing: duplex_printing, ..a })
            == seq![("双面排版"@, yes_no_text(a.duplex_printing), yes_no_text(duplex_printing))],
{
    if kind_label(a.kind) != kind_label(kind) {
        let it = profile_items(a, TemplateProfile { kind: kind, ..a });
        assert forall|i: int| 0 <= i < it.len() && i != 0 implies #[trigger] it[i].1 == it[i].2 by {}
        lemma_changed_one(it, 0);
    }
    if scope_label(a.correspondence_scope) != scope_label(correspondence_scope) {
        let it = profile_items(a, TemplateProfile { correspondence_scope: correspondence_scope, ..a });
        assert forall|i: int| 0 <= i < it.len() && i != 1 implies #[trigger] it[i].1 == it[i].2 by {}
        lemma_changed_one(it, 1);
    }
    if joint_label(a.joint_issuance_mode) != joint_label(joint_issuance_mode) {
        let it = profile_items(a, TemplateProfile { joint_issuance_mode: joint_issuance_mode, ..a });
        assert forall|i: int| 0 <= i < it.len() && i != 2 implies #[trigger] it[i].1 == it[i].2 by {}
        lemma_changed_one(it, 2);
    }
    if contacts_text(a.joint_contacts@) != contacts_text(joint_contacts@) {
        let it = profile_items(a, TemplateProfile { joint_contacts: joint_contacts, ..a });
        assert forall|i: int| 0 <= i < it.len() && i != 14 implies #[trigger] it[i].1 == it[i].2 by {}
        lemma_changed_one(it, 14);
    }
    if yes_no_text(a.special_handling) != yes_no_text(special_handling) {
        let it = profile_items(a, TemplateProfile { special_handling: special_handling, ..a });
        assert forall|i: int| 0 <= i < it.len() && i != 19 implies #[trigger] it[i].1 == it[i].2 by {}
        lemma_changed_one(it, 19);
    }
    if version_label(a.letter_version) != version_label(letter_version) {
        let it = profile_items(a, TemplateProfile { letter_version: letter_version, ..a });
        assert forall|i: int| 0 <= i < it.len() && i != 22 implies #[trigger] it[i].1 == it[i].2 by {}
        lemma_changed_one(it, 22);
    }
    if style_label(a.style_mode) != style_label(style_mode) {
        let it = profile_items(a, TemplateProfile { style_mode: style_mode, ..a });
        assert forall|i: int| 0 <= i < it.len() && i != 23 implies #[trigger] it[i].1 == it[i].2 by {}
        lemma_changed_one(it, 23);
    }
    if yes_no_text(a.duplex_printing) != yes_no_text(duplex_printing) {
        let it = profile_items(a, TemplateProfile { duplex_printing: duplex_printing, ..a });
        assert forall|i: int| 0 <= i < it.len() && i != 24 implies #[trigger] it[i].1 == it[i].2 by {}
        lemma_changed_one(it, 24);
    }
}

/// The draft comparison misses no element of the draft: two drafts that
/// differ in one element alone give exactly that element's change, and two
/// drafts that differ only in their layout profiles give the profile's
/// changes.
#[verifier::spinoff_prover]
#[verifier::rlimit(60)]
pub proof fn lemma_draft_field_changes(a: DraftInput, x: String, kind: TemplateKind, q: TemplateProfile)
    ensures
        x@ != a.title_hint@ ==> draft_changes_model(a, DraftInput { title_hint: x, ..a })
            == seq![("标题提示"@, a.title_hint@, x@)],
        x@ != a.date@ ==> draft_changes_model(a, DraftInput { date: x, ..a })
            == seq![("成文日期"@, a.date@, x@)],
        x@ != a.meeting_time@ ==> draft_changes_model(a, DraftInput { meeting_time: x, ..a })
            == seq![("会议时间"@, a.meeting_time@, x@)],
        x@ != a.attendees@ ==> draft_changes_model(a, DraftInput { attendees: x, ..a })
            == seq![("参会人员"@, a.attendees@, x@)],
        kind_label(a.kind) != kind_label(kind) ==> draft_changes_model(a, DraftInput { kind: kind, ..a })
            == seq![("文种"@, kind_label(a.kind), kind_label(kind))],
        draft_changes_model(a, DraftInput { profile: q, ..a }) == profile_changes_model(a.profile, q),
{
    if x@ != a.title_hint@ {
        let b = DraftInput { title_hint: x, ..a };
        let it = draft_items(a, b);
        assert forall|i: int| 0 <= i < it.len() && i != 1 implies #[trigger] it[i].1 == it[i].2 by {}
        lemma_changed_one(it, 1);
        lemma_same_draft_no_changes(a);
        assert(profile_changes_model(a.profile, b.profile) =~= Seq::<FieldModel>::empty());
        assert(draft_changes_model(a, b) =~= seq![("标题提示"@, a.title_hint@, x@)]);
    }
    if x@ != a.date@ {
        let b = DraftInput { date: x, ..a };
        let it = draft_items(a, b);
        assert forall|i: int| 0 <= i < it.len() && i != 2 implies #[trigger] it[i].1 == it[i].2 by {}
        lemma_changed_one(it, 2);
        lemma_same_draft_no_changes(a);
        assert(profile_changes_model(a.profile, b.profile) =~= Seq::<FieldModel>::empty());
        assert(draft_changes_model(a, b) =~= seq![("成文日期"@, a.date@, x@)]);
    }
    if x@ != a.meeting_time@ {
        let b = DraftInput { meeting_time: x, ..a };
        let it = draft_items(a, b);
        assert forall|i: int| 0 <= i < it.len() && i != 3 implies #[trigger] it[i].1 == it[i].2 by {}
        lemma_changed_one(it, 3);
        lemma_same_draft_no_changes(a);
        assert(profile_changes_model(a.profile, b.profile) =~= Seq::<FieldModel>::empty());
        assert(draft_changes_model(a, b) =~= seq![("会议时间"@, a.meeting_time@, x@)]);
    }
    if x@ != a.attendees@ {
        let b = DraftInput { attendees: x, ..a };
        let it = draft_items(a, b);
        assert forall|i: int| 0 <= i < it.len() && i != 4 implies #[trigger] it[i].1 == it[i].2 by {}
        lemma_changed_one(it, 4);
        lemma_same_draft_no_changes(a);
        assert(profile_changes_model(a.profile, b.profile) =~= Seq::<FieldModel>::empty());
        assert(draft_changes_model(a, b) =~= seq![("参会人员"@, a.attendees@, x@)]);
    }
    if kind_label(a.kind) != kind_label(kind) {
        let b = DraftInput { kind: kind, ..a };
        let it = draft_items(a, b);
        assert forall|i: int| 0 <= i < it.len() && i != 0 implies #[trigger] it[i].1 == it[i].2 by {}
        lemma_changed_one(it, 0);
        lemma_same_draft_no_changes(a);
        assert(profile_changes_model(a.profile, b.profile) =~= Seq::<FieldModel>::empty());
        assert(draft_changes_model(a, b) =~= seq![("文种"@, kind_label(a.kind), kind_label(kind))]);
    }
    let bq = DraftInput { profile: q, ..a };
    let iq = draft_items(a, bq);
    assert forall|i: int| 0 <= i < iq.len() implies #[trigger] iq[i].1 == iq[i].2 by {}
    lemma_changed_none(iq);
    assert(changed(iq) + profile_changes_model(a.profile, q) =~= profile_changes_model(a.profile, q));
}

/// The settings comparison misses none of the connection to the model server: two configurations that
/// differ in one such setting alone, shown differently, give exactly one
/// change, that setting's label with its two values as shown.
#[verifier::spinoff_prover]
#[verifier::rlimit(80)]
pub proof fn lemma_connection_setting_changes(a: AppConfig, s: String, n: u64)
    ensures
        a.lm_studio.base_url@ != s@ ==> settings_changes_model(a, AppConfig { lm_studio: LmStudioConfig { base_url: s, ..a.lm_studio }, ..a })
            == seq![("接口地址"@, a.lm_studio.base_url@, s@)],
        a.lm_studio.model@ != s@ ==> settings_changes_model(a, AppConfig { lm_studio: LmStudioConfig { model: s, ..a.lm_studio }, ..a })
            == seq![("模型"@, a.lm_studio.model@, s@)],
        masked_text(a.lm_studio.api_key@) != masked_text(s@) ==> settings_changes_model(a, AppConfig { lm_studio: LmStudioConfig { api_key: s, ..a.lm_studio }, ..a })
            == seq![("API Key"@, masked_text(a.lm_studio.api_key@), masked_text(s@))],
        a.lm_studio.temperature@ != s@ ==> settings_changes_model(a, AppConfig { lm_studio: LmStudioConfig { temperature: s, ..a.lm_studio }, ..a })
            == seq![("温度"@, a.lm_studio.temperature@, s@)],
        decimal_digits(a.lm_studio.max_tokens as nat) != decimal_digits(n as nat) ==> settings_changes_model(a, AppConfig { lm_studio: LmStudioConfig { max_tokens: n, ..a.lm_studio }, ..a })
            == seq![("最大输出 Token"@, decimal_digits(a.lm_studio.max_tokens as nat), decimal_digits(n as nat))],
        decimal_digits(a.lm_studio.timeout_seconds as nat) != decimal_digits(n as nat) ==> settings_changes_model(a, AppConfig { lm_studio: LmStudioConfig { timeout_seconds: n, ..a.lm_studio }, ..a })
            == seq![("超时（秒）"@, decimal_digits(a.lm_studio.timeout_seconds as nat), decimal_digits(n as nat))],
{
    if a.lm_studio.base_url@ != s@ {
        let it = settings_items(a, AppConfig { lm_studio: LmStudioConfig { base_url: s, ..a.lm_studio }, ..a });
        assert forall|i: int| 0 <= i < it.len() && i != 0 implies #[trigger] it[i].1 == it[i].2 by {}
        lemma_changed_one(it, 0);
    }
    if a.lm_studio.model@ != s@ {
        let it = settings_items(a, AppConfig { lm_studio: LmStudioConfig { model: s, ..a.lm_studio }, ..a });
        assert forall|i: int| 0 <= i < it.len() && i != 1 implies #[trigger] it[i].1 == it[i].2 by {}
        lemma_changed_one(it, 1);
    }
    if masked_text(a.lm_studio.api_key@) != masked_text(s@) {
        let it = settings_items(a, AppConfig { lm_studio: LmStudioConfig { api_key: s, ..a.lm_studio }, ..a });
        assert forall|i: int| 0 <= i < it.len() && i != 2 implies #[trigger] it[i].1 == it[i].2 by {}
        lemma_changed_one(it, 2);
    }
    if a.lm_studio.temperature@ != s@ {
        let it = settings_items(a, AppConfig { lm_studio: LmStudioConfig { temperature: s, ..a.lm_studio }, ..a });
        assert forall|i: int| 0 <= i < it.len() && i != 3 implies #[trigger] it[i].1 == it[i].2 by {}
        lemma_changed_one(it, 3);
    }
    if decimal_digits(a.lm_studio.max_tokens as nat) != decimal_digits(n as nat) {
        let it = settings_items(a, AppConfig { lm_studio: LmStudioConfig { max_tokens: n, ..a.lm_studio }, ..a });
        assert forall|i: int| 0 <= i < it.len() && i != 4 implies #[trigger] it[i].1 == it[i].2 by {}
        lemma_changed_one(it, 4);
    }
    if decimal_digits(a.lm_studio.timeout_seconds as nat) != decimal_digits(n as nat) {
        let it = settings_items(a, AppConfig { lm_studio: LmStudioConfig { timeout_seconds: n, ..a.lm_studio }, ..a });
        assert forall|i: int| 0 <= i < it.len() && i != 5 implies #[trigger] it[i].1 == it[i].2 by {}
        lemma_changed_one(it, 5);
    }
}

/// The settings comparison misses none of the output folder: two configurations that
/// differ in one such setting alone, shown differently, give exactly one
/// change, that setting's label with its two values as shown.
#[verifier::spinoff_prover]
#[verifier::rlimit(80)]
pub proof fn lemma_output_folder_change(a: AppConfig, s: String)
    ensures
        a.output_dir@ != s@ ==> settings_changes_model(a, AppConfig { output_dir: s, ..a })
            == seq![("输出目录"@, a.output_dir@, s@)],
{
    if a.output_dir@ != s@ {
        let it = settings_items(a, AppConfig { output_dir: s, ..a });
        assert forall|i: int| 0 <= i < it.len() && i != 6 implies #[trigger] it[i].1 == it[i].2 by {}
        lemma_changed_one(it, 6);
    }
}

/// The settings comparison misses none of the Markdown and Word exports: two configurations that
/// differ in one such setting alone, shown differently, give exactly one
/// change, that setting's label with its two values as shown.
#[verifier::spinoff_prover]
#[verifier::rlimit(80)]
pub proof fn lemma_export_format_changes(a: AppConfig, flag: bool)
    ensures
        yes_no_text(a.export.markdown) != yes_no_text(flag) ==> settings_changes_model(a, AppConfig { export: ExportConfig { markdown: flag, ..a.export }, ..a })
            == seq![("导出：Markdown"@, yes_no_text(a.export.markdown), yes_no_text(flag))],
        yes_no_text(a.export.docx) != yes_no_text(flag) ==> settings_changes_model(a, AppConfig { export: ExportConfig { docx: flag, ..a.export }, ..a })
            == seq![("导出：Word"@, yes_no_text(a.export.docx), yes_no_text(flag))],
{
    if yes_no_text(a.export.markdown) != yes_no_text(flag) {
        let it = settings_items(a, AppConfig { export: ExportConfig { markdown: flag, ..a.export }, ..a });
        assert forall|i: int| 0 <= i < it.len() && i != 7 implies #[trigger] it[i].1 == it[i].2 by {}
        lemma_changed_one(it, 7);
    }
    if yes_no_text(a.export.docx) != yes_no_text(flag) {
        let it = settings_items(a, AppConfig { export: ExportConfig { docx: flag, ..a.export }, ..a });
        assert forall|i: int| 0 <= i < it.len() && i != 8 implies #[trigger] it[i].1 == it[i].2 by {}
        lemma_changed_one(it, 8);
    }
}

/// The settings comparison misses none of the LaTeX export and the overwrite choice: two configurations that
/// differ in one such setting alone, shown differently, give exactly one
/// change, that setting's label with its two values as shown.
#[verifier::spinoff_prover]
#[verifier::rlimit(80)]
pub proof fn lemma_export_option_changes(a: AppConfig, flag: bool)
    ensures
        yes_no_text(a.export.tex) != yes_no_text(flag) ==> settings_changes_model(a, AppConfig { export: ExportConfig { tex: flag, ..a.export }, ..a })
            == seq![("导出：LaTeX"@, yes_no_text(a.export.tex), yes_no_text(flag))],
        yes_no_text(a.export.overwrite) != yes_no_text(flag) ==> settings_changes_model(a, AppConfig { export: ExportConfig { overwrite: flag, ..a.export }, ..a })
            == seq![("覆盖同名文件"@, yes_no_text(a.export.overwrite), yes_no_text(flag))],
{
    if yes_no_text(a.export.tex) != yes_no_text(flag) {
        let it = settings_items(a, AppConfig { export: ExportConfig { tex: flag, ..a.export }, ..a });
        assert forall|i: int| 0 <= i < it.len() && i != 9 implies #[trigger] it[i].1 == it[i].2 by {}
        lemma_changed_one(it, 9);
    }
    if yes_no_text(a.export.overwrite) != yes_no_text(flag) {
        let it = settings_items(a, AppConfig { export: ExportConfig { overwrite: flag, ..a.export }, ..a });
        assert forall|i: int| 0 <= i < it.len() && i != 10 implies #[trigger] it[i].1 == it[i].2 by {}
        lemma_changed_one(it, 10);
    }
}

/// The settings comparison misses none of the editing preferences: two configurations that
/// differ in one such setting alone, shown differently, give exactly one
/// change, that setting's label with its two values as shown.
#[verifier::spinoff_prover]
#[verifier::rlimit(80)]
pub proof fn lemma_behaviour_setting_changes(a: AppConfig, flag: bool)
    ensures
        yes_no_text(a.auto_export) != yes_no_text(flag) ==> settings_changes_model(a, AppConfig { auto_export: flag, ..a })
            == seq![("生成后自动导出"@, yes_no_text(a.auto_export), yes_no_text(flag))],
        yes_no_text(a.allow_free_text) != yes_no_text(flag) ==> settings_changes_model(a, AppConfig { allow_free_text: flag, ..a })
            == seq![("允许词库外手填"@, yes_no_text(a.allow_free_text), yes_no_text(flag))],
        yes_no_text(a.show_editor_line_numbers) != yes_no_text(flag) ==> settings_changes_model(a, AppConfig { show_editor_line_numbers: flag, ..a })
            == seq![("编辑器显示行号"@, yes_no_text(a.show_editor_line_numbers), yes_no_text(flag))],
{
    if yes_no_text(a.auto_export) != yes_no_text(flag) {
        let it = settings_items(a, AppConfig { auto_export: flag, ..a });
        assert forall|i: int| 0 <= i < it.len() && i != 11 implies #[trigger] it[i].1 == it[i].2 by {}
        lemma_changed_one(it, 11);
    }
    if yes_no_text(a.allow_free_text) != yes_no_text(flag) {
        let it = settings_items(a, AppConfig { allow_free_text: flag, ..a });
        assert forall|i: int| 0 <= i < it.len() && i != 12 implies #[trigger] it[i].1 == it[i].2 by {}
        lemma_changed_one(it, 12);
    }
    if yes_no_text(a.show_editor_line_numbers) != yes_no_text(flag) {
        let it = settings_items(a, AppConfig { show_editor_line_numbers: flag, ..a });
        assert forall|i: int| 0 <= i < it.len() && i != 13 implies #[trigger] it[i].1 == it[i].2 by {}
        lemma_changed_one(it, 13);
    }
}

/// The settings comparison misses none of the secrecy rules: two configurations that
/// differ in one such setting alone, shown differently, give exactly one
/// change, that setting's label with its two values as shown.
#[verifier::spinoff_prover]
#[verifier::rlimit(80)]
pub proof fn lemma_secrecy_setting_changes(a: AppConfig, n: u64, flag: bool)
    ensures
        decimal_digits(a.security_rules.secret_max_years as nat) != decimal_digits(n as nat) ==> settings_changes_model(a, AppConfig { security_rules: SecurityRules { secret_max_years: n, ..a.security_rules }, ..a })
            == seq![("秘密级上限（年）"@, decimal_digits(a.security_rules.secret_max_years as nat), decimal_digits(n as nat))],
        decimal_digits(a.security_rules.confidential_max_years as nat) != decimal_digits(n as nat) ==> settings_changes_model(a, AppConfig { security_rules: SecurityRules { confidential_max_years: n, ..a.security_rules }, ..a })
            == seq![("机密级上限（年）"@, decimal_digits(a.security_rules.confidential_max_years as nat), decimal_digits(n as nat))],
        decimal_digits(a.security_rules.top_secret_max_years as nat) != decimal_digits(n as nat) ==> settings_changes_model(a, AppConfig { security_rules: SecurityRules { top_secret_max_years: n, ..a.security_rules }, ..a })
            == seq![("绝密级上限（年）"@, decimal_digits(a.security_rules.top_secret_max_years as nat), decimal_digits(n as nat))],
        yes_no_text(a.security_rules.allow_long_term) != yes_no_text(flag) ==> settings_changes_model(a, AppConfig { security_rules: SecurityRules { allow_long_term: flag, ..a.security_rules }, ..a })
            == seq![("允许“长期”期限"@, yes_no_text(a.security_rules.allow_long_term), yes_no_text(flag))],
{
    if decimal_digits(a.security_rules.secret_max_years as nat) != decimal_digits(n as nat) {
        let it = settings_items(a, AppConfig { security_rules: SecurityRules { secret_max_years: n, ..a.security_rules }, ..a });
        assert forall|i: int| 0 <= i < it.len() && i != 14 implies #[trigger] it[i].1 == it[i].2 by {}
        lemma_changed_one(it, 14);
    }
    if decimal_digits(a.security_rules.confidential_max_years as nat) != decimal_digits(n as nat) {
        let it = settings_items(a, AppConfig { security_rules: SecurityRules { confidential_max_years: n, ..a.security_rules }, ..a });
        assert forall|i: int| 0 <= i < it.len() && i != 15 implies #[trigger] it[i].1 == it[i].2 by {}
        lemma_changed_one(it, 15);
    }
    if decimal_digits(a.security_rules.top_secret_max_years as nat) != decimal_digits(n as nat) {
        let it = settings_items(a, AppConfig { security_rules: SecurityRules { top_secret_max_years: n, ..a.security_rules }, ..a });
        assert forall|i: int| 0 <= i < it.len() && i != 16 implies #[trigger] it[i].1 == it[i].2 by {}
        lemma_changed_one(it, 16);
    }
    if yes_no_text(a.security_rules.allow_long_term) != yes_no_text(flag) {
        let it = settings_items(a, AppConfig { security_rules: SecurityRules { allow_long_term: flag, ..a.security_rules }, ..a });
        assert forall|i: int| 0 <= i < it.len() && i != 17 implies #[trigger] it[i].1 == it[i].2 by {}
        lemma_changed_one(it, 17);
    }
}

/// The comparison of a vocabulary entry misses no field: two entries that
/// differ in one field alone, shown differently, give exactly one change,
/// that field's label with its two values as shown.
#[verifier::spinoff_prover]
#[verifier::rlimit(80)]
pub proof fn lemma_vocab_field_changes(a: VocabularyEntry, x: String, flag: bool)
    ensures
        x@ != a.canonical@ ==> vocab_fields_model(a, VocabularyEntry { canonical: x, ..a })
            == seq![("全称"@, a.canonical@, x@)],
        x@ != a.abbr@ ==> vocab_fields_model(a, VocabularyEntry { abbr: x, ..a })
            == seq![("简称"@, a.abbr@, x@)],
        x@ != a.external_name@ ==> vocab_fields_model(a, VocabularyEntry { external_name: x, ..a })
            == seq![("外部名称"@, a.external_name@, x@)],
        x@ != a.department_code@ ==> vocab_fields_model(a, VocabularyEntry { department_code: x, ..a })
            == seq![("机关代字"@, a.department_code@, x@)],
        x@ != a.parent@ ==> vocab_fields_model(a, VocabularyEntry { parent: x, ..a })
            == seq![("上级单位"@, a.parent@, x@)],
        x@ != a.phone@ ==> vocab_fields_model(a, VocabularyEntry { phone: x, ..a })
            == seq![("电话"@, a.phone@, x@)],
        x@ != a.position@ ==> vocab_fields_model(a, VocabularyEntry { position: x, ..a })
            == seq![("职务"@, a.position@, x@)],
        x@ != a.note@ ==> vocab_fields_model(a, VocabularyEntry { note: x, ..a })
            == seq![("备注"@, a.note@, x@)],
        yes_no_text(a.seal_on_behalf) != yes_no_text(flag) ==> vocab_fields_model(a, VocabularyEntry { seal_on_behalf: flag, ..a })
            == seq![("是否代章"@, yes_no_text(a.seal_on_behalf), yes_no_text(flag))],
        yes_no_text(a.can_handle_parent_unit) != yes_no_text(flag) ==> vocab_fields_model(a, VocabularyEntry { can_handle_parent_unit: flag, ..a })
            == seq![("承办上级单位"@, yes_no_text(a.can_handle_parent_unit), yes_no_text(flag))],
{
    if x@ != a.canonical@ {
        let it = vocab_items(a, VocabularyEntry { canonical: x, ..a });
        assert forall|i: int| 0 <= i < it.len() && i != 0 implies #[trigger] it[i].1 == it[i].2 by {}
        lemma_changed_one(it, 0);
    }
    if x@ != a.abbr@ {
        let it = vocab_items(a, VocabularyEntry { abbr: x, ..a });
        assert forall|i: int| 0 <= i < it.len() && i != 1 implies #[trigger] it[i].1 == it[i].2 by {}
        lemma_changed_one(it, 1);
    }
    if x@ != a.external_name@ {
        let it = vocab_items(a, VocabularyEntry { external_name: x, ..a });
        assert forall|i: int| 0 <= i < it.len() && i != 2 implies #[trigger] it[i].1 == it[i].2 by {}
        lemma_changed_one(it, 2);
    }
    if x@ != a.department_code@ {
        let it = vocab_items(a, VocabularyEntry { department_code: x, ..a });
        assert forall|i: int| 0 <= i < it.len() && i != 3 implies #[trigger] it[i].1 == it[i].2 by {}
        lemma_changed_one(it, 3);
    }
    if x@ != a.parent@ {
        let it = vocab_items(a, VocabularyEntry { parent: x, ..a });
        assert forall|i: int| 0 <= i < it.len() && i != 5 implies #[trigger] it[i].1 == it[i].2 by {}
        lemma_changed_one(it, 5);
    }
    if x@ != a.phone@ {
        let it = vocab_items(a, VocabularyEntry { phone: x, ..a });
        assert forall|i: int| 0 <= i < it.len() && i != 7 implies #[trigger] it[i].1 == it[i].2 by {}
        lemma_changed_one(it, 7);
    }
    if x@ != a.position@ {
        let it = vocab_items(a, VocabularyEntry { position: x, ..a });
        assert forall|i: int| 0 <= i < it.len() && i != 8 implies #[trigger] it[i].1 == it[i].2 by {}
        lemma_changed_one(it, 8);
    }
    if x@ != a.note@ {
        let it = vocab_items(a, VocabularyEntry { note: x, ..a });
        assert forall|i: int| 0 <= i < it.len() && i != 10 implies #[trigger] it[i].1 == it[i].2 by {}
        lemma_changed_one(it, 10);
    }
    if yes_no_text(a.seal_on_behalf) != yes_no_text(flag) {
        let it = vocab_items(a, VocabularyEntry { seal_on_behalf: flag, ..a });
        assert forall|i: int| 0 <= i < it.len() && i != 4 implies #[trigger] it[i].1 == it[i].2 by {}
        lemma_changed_one(it, 4);
    }
    if yes_no_text(a.can_handle_parent_unit) != yes_no_text(flag) {
        let it = vocab_items(a, VocabularyEntry { can_handle_parent_unit: flag, ..a });
        assert forall|i: int| 0 <= i < it.len() && i != 9 implies #[trigger] it[i].1 == it[i].2 by {}
        lemma_changed_one(it, 9);
    }
}

proof fn lemma_entries_kept_unreported(a: Seq<VocabularyEntry>, e: VocabularyEntry, k: int)
    requires
        k <= a.len(),
        forall|i: int, j: int| 0 <= i < j < a.len() ==> a[i].id != a[j].id,
    ensures
        unmatched_entries(a, a.push(e), k, "新增"@).len() == 0,
        unmatched_entries(a.push(e), a, k, "删除"@).len() == 0,
        modified_entries(a, a.push(e), k).len() == 0,
    decreases k,
{
    if k > 0 {
        lemma_entries_kept_unreported(a, e, k - 1);
        let b = a.push(e);
        let x = a[k - 1];
        assert(b[k - 1] == x);
        assert(has_id(a, x.id));
        assert(has_id(b, x.id));
        lemma_last_index_distinct(a, k - 1);
        let items = vocab_items(x, x);
        assert forall|j: int| 0 <= j < items.len() implies #[trigger] items[j].1 == items[j].2 by {}
        lemma_changed_none(items);
    }
}

/// Adding one entry with an identity of its own to a vocabulary whose
/// entries each have their own reports exactly that entry, as added, with
/// its category and its name.
pub proof fn lemma_vocab_added_entry(a: Seq<VocabularyEntry>, e: VocabularyEntry)
    requires
        forall|i: int, j: int| 0 <= i < j < a.len() ==> a[i].id != a[j].id,
        forall|i: int| 0 <= i < a.len() ==> (#[trigger] a[i]).id != e.id,
    ensures
        vocab_model(a, a.push(e)) == seq![
            VocabChangeModel { category: e.category, action: "新增"@, label: vocab_label_text(e), changes: seq![] },
        ],
{
    let b = a.push(e);
    let n = a.len() as int;
    lemma_entries_kept_unreported(a, e, n);
    assert(b[n] == e);
    assert(!has_id(a, e.id));
    let added = unmatched_entries(a, b, n + 1, "新增"@);
    assert(added =~= seq![
        VocabChangeModel { category: e.category, action: "新增"@, label: vocab_label_text(e), changes: seq![] },
    ]);
    assert(modified_entries(a, b, n + 1) =~= modified_entries(a, b, n));
    assert(vocab_model(a, b) =~= added);
}

proof fn lemma_entries_left_unreported(a: Seq<VocabularyEntry>, e: VocabularyEntry, k: int)
    requires
        k <= a.len(),
        forall|i: int, j: int| 0 <= i < j < a.push(e).len() ==> a.push(e)[i].id != a.push(e)[j].id,
    ensures
        unmatched_entries(a.push(e), a, k, "新增"@).len() == 0,
        unmatched_entries(a, a.push(e), k, "删除"@).len() == 0,
        modified_entries(a.push(e), a, k).len() == 0,
    decreases k,
{
    if k > 0 {
        lemma_entries_left_unreported(a, e, k - 1);
        let b = a.push(e);
        let x = a[k - 1];
        assert(b[k - 1] == x);
        assert(has_id(a, x.id));
        assert(has_id(b, x.id));
        lemma_last_index_distinct(b, k - 1);
        let items = vocab_items(x, x);
        assert forall|j: int| 0 <= j < items.len() implies #[trigger] items[j].1 == items[j].2 by {}
        lemma_changed_none(items);
    }
}

/// Removing the last entry of a vocabulary whose entries each have their
/// own identity reports exactly that entry, as removed, with its category
/// and its name.
pub proof fn lemma_vocab_removed_entry(a: Seq<VocabularyEntry>, e: VocabularyEntry)
    requires
        forall|i: int, j: int| 0 <= i < j < a.len() ==> a[i].id != a[j].id,
        forall|i: int| 0 <= i < a.len() ==> (#[trigger] a[i]).id != e.id,
    ensures
        vocab_model(a.push(e), a) == seq![
            VocabChangeModel { category: e.category, action: "删除"@, label: vocab_label_text(e), changes: seq![] },
        ],
{
    let b = a.push(e);
    let n = a.len() as int;
    assert forall|i: int, j: int| 0 <= i < j < b.len() implies b[i].id != b[j].id by {
        if j == n {
            assert(b[i] == a[i]);
        } else {
            assert(b[i] == a[i] && b[j] == a[j]);
        }
    }
    lemma_entries_left_unreported(a, e, n);
    assert(b[n] == e);
    assert(!has_id(a, e.id));
    let removed = unmatched_entries(a, b, n + 1, "删除"@);
    assert(removed =~= seq![
        VocabChangeModel { category: e.category, action: "删除"@, label: vocab_label_text(e), changes: seq![] },
    ]);
    assert(vocab_model(b, a) =~= removed);
}

} // verus!
