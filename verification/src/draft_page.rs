//! Small choices of the drafting page: the finished formats of the output
//! ribbon, the scope of the knowledge-base search, and the sections of the
//! element form with their fill-in progress.

use crate::models::{kind_label, TemplateKind};
use crate::text::{chars_of, starts_with};
use vstd::prelude::*;

verus! {

/// The finished formats the output ribbon opens.
#[derive(Debug, Clone, Copy, PartialEq, Eq, Structural)]
pub enum ExportKind {
    Tex,
    Pdf,
    Word,
}

impl ExportKind {
    /// Every format, in ribbon order.
    pub fn all() -> (r: [ExportKind; 3])
        ensures
            r@ == seq![ExportKind::Tex, ExportKind::Pdf, ExportKind::Word],
    {
        let r = [ExportKind::Tex, ExportKind::Pdf, ExportKind::Word];
        assert(r@ =~= seq![ExportKind::Tex, ExportKind::Pdf, ExportKind::Word]);
        r
    }

    /// The format name of the hover text.
    pub fn label(self) -> (r: &'static str)
        ensures
            r@ == match self {
                ExportKind::Tex => "TEX"@,
                ExportKind::Pdf => "PDF"@,
                ExportKind::Word => "WORD"@,
            },
    {
        match self {
            ExportKind::Tex => "TEX",
            ExportKind::Pdf => "PDF",
            ExportKind::Word => "WORD",
        }
    }

    /// The file extension of the format.
    pub fn extension(self) -> (r: &'static str)
        ensures
            r@ == match self {
                ExportKind::Tex => "tex"@,
                ExportKind::Pdf => "pdf"@,
                ExportKind::Word => "docx"@,
            },
    {
        match self {
            ExportKind::Tex => "tex",
            ExportKind::Pdf => "pdf",
            ExportKind::Word => "docx",
        }
    }
}

/// `c` with ASCII capitals made small.
pub open spec fn ascii_lower(c: char) -> char {
    if 'A' <= c <= 'Z' {
        ((c as u8) + 32) as char
    } else {
        c
    }
}

/// The format an extension (any ASCII case) names.
pub open spec fn kind_of_extension(ext: Seq<char>) -> Option<ExportKind> {
    let e = ext.map_values(|c: char| ascii_lower(c));
    if e == "tex"@ {
        Some(ExportKind::Tex)
    } else if e == "pdf"@ {
        Some(ExportKind::Pdf)
    } else if e == "docx"@ {
        Some(ExportKind::Word)
    } else {
        None
    }
}

fn lower_char(c: char) -> (r: char)
    ensures
        r == ascii_lower(c),
{
    if 'A' <= c && c <= 'Z' {
        let b = c as u8;
        (b + 32) as char
    } else {
        c
    }
}

fn same_chars(a: &Vec<char>, b: &[char]) -> (r: bool)
    ensures
        r == (a@ == b@),
{
    if a.len() != b.len() {
        return false;
    }
    let mut k: usize = 0;
    while k < a.len()
        invariant
            a.len() == b.len(),
            k <= a.len(),
            forall|t: int| 0 <= t < k ==> a@[t] == b@[t],
        decreases a.len() - k,
    {
        if a[k] != b[k] {
            return false;
        }
        k += 1;
    }
    assert(a@ =~= b@);
    true
}

impl ExportKind {
    /// The format a file extension names, ASCII case ignored.
    pub fn from_extension(ext: &str) -> (r: Option<ExportKind>)
        ensures
            r == kind_of_extension(ext@),
    {
        proof {
            reveal_strlit("tex");
            reveal_strlit("pdf");
            reveal_strlit("docx");
        }
        let v = chars_of(ext);
        let mut e: Vec<char> = Vec::new();
        let mut k: usize = 0;
        while k < v.len()
            invariant
                k <= v.len(),
                e@ == v@.take(k as int).map_values(|c: char| ascii_lower(c)),
            decreases v.len() - k,
        {
            e.push(lower_char(v[k]));
            assert(e@ =~= v@.take(k + 1).map_values(|c: char| ascii_lower(c)));
            k += 1;
        }
        assert(v@.take(v.len() as int) =~= v@);
        let tex = ['t', 'e', 'x'];
        let pdf = ['p', 'd', 'f'];
        let docx = ['d', 'o', 'c', 'x'];
        assert(tex@ =~= "tex"@ && pdf@ =~= "pdf"@ && docx@ =~= "docx"@);
        if same_chars(&e, &tex) {
            Some(ExportKind::Tex)
        } else if same_chars(&e, &pdf) {
            Some(ExportKind::Pdf)
        } else if same_chars(&e, &docx) {
            Some(ExportKind::Word)
        } else {
            None
        }
    }
}

/// Whether an entry of the output directory belongs to the manuscript whose
/// export stem is `stem`: the stem itself, a numbered `stem-N`, or a file
/// `stem.<ext>`; a neighbour whose name only starts with the stem does not.
/// Every entry belongs when no manuscript is bound.
pub open spec fn stem_match(stem: Option<Seq<char>>, name: Seq<char>) -> bool {
    match stem {
        None => true,
        Some(s) => name == s || (starts_with(name, s) && name.len() > s.len() && (name[s.len() as int] == '-'
            || name[s.len() as int] == '.')),
    }
}

/// Whether an output entry named `name` belongs to the bound manuscript.
pub fn stem_matches(stem: Option<&str>, name: &str) -> (r: bool)
    ensures
        r == stem_match(
            match stem {
                Some(s) => Some(s@),
                None => None,
            },
            name@,
        ),
{
    let s = match stem {
        None => {
            return true;
        },
        Some(s) => s,
    };
    let n = chars_of(name);
    let p = chars_of(s);
    if n.len() < p.len() {
        return false;
    }
    let mut k: usize = 0;
    while k < p.len()
        invariant
            k <= p.len() <= n.len(),
            stem == Some(s),
            n@ == name@,
            p@ == s@,
            forall|t: int| 0 <= t < k ==> n@[t] == p@[t],
        decreases p.len() - k,
    {
        if n[k] != p[k] {
            assert(n@.take(p.len() as int)[k as int] != p@[k as int]);
            return false;
        }
        k += 1;
    }
    assert(n@.take(p.len() as int) =~= p@);
    if n.len() == p.len() {
        assert(n@ =~= p@);
        return true;
    }
    n[p.len()] == '-' || n[p.len()] == '.'
}

/// The kinds of document the knowledge-base search for a draft looks in.
///
/// Not an `Option<TemplateKind>`: there `None` would have to mean both
/// "follow the draft" and "any kind", and searching across kinds could not
/// be chosen at all.
#[derive(Debug, Clone, Copy, PartialEq, Eq, Structural, Default)]
pub enum RagKindFilter {
    /// The kind of the current draft, the most relevant.
    #[default]
    Follow,
    /// Every kind.
    All,
    /// One chosen kind.
    Only(TemplateKind),
}

impl RagKindFilter {
    /// The filter the search takes: `None` for every kind.
    pub fn resolve(self, current: TemplateKind) -> (r: Option<TemplateKind>)
        ensures
            r == match self {
                RagKindFilter::Follow => Some(current),
                RagKindFilter::All => None,
                RagKindFilter::Only(kind) => Some(kind),
            },
    {
        match self {
            RagKindFilter::Follow => Some(current),
            RagKindFilter::All => None,
            RagKindFilter::Only(kind) => Some(kind),
        }
    }

    pub fn label(self) -> (r: &'static str)
        ensures
            r@ == match self {
                RagKindFilter::Follow => "跟随当前文种"@,
                RagKindFilter::All => "全部文种"@,
                RagKindFilter::Only(kind) => kind_label(kind),
            },
    {
        match self {
            RagKindFilter::Follow => "跟随当前文种",
            RagKindFilter::All => "全部文种",
            RagKindFilter::Only(kind) => kind.label(),
        }
    }
}

/// The three parts of the element form, in the order they stand on paper.
#[derive(Debug, Clone, Copy, PartialEq, Eq, Structural)]
pub enum FormSection {
    /// Secrecy, issuing authority (the red head), document number.
    Header,
    /// Recipients, title, body style.
    Body,
    /// Copies, handling unit, signature, date, printing.
    Record,
}

/// What one part of the form shows under its name, by kind of document.
pub open spec fn section_hint(section: FormSection, kind: TemplateKind) -> Seq<char> {
    match section {
        FormSection::Header => match kind {
            TemplateKind::PlainDocument | TemplateKind::MeetingAgenda => "密级"@,
            _ => "密级 · 红头 · 文号"@,
        },
        FormSection::Body => match kind {
            TemplateKind::MeetingAgenda => "会议时间 · 地点 · 人员"@,
            TemplateKind::WhitePaper | TemplateKind::RedHeadApproval => "呈报领导 · 标题"@,
            TemplateKind::PlainDocument => "标题 · 体例"@,
            _ => "主送 · 标题"@,
        },
        FormSection::Record => match kind {
            TemplateKind::PlainDocument => "打印方式"@,
            TemplateKind::PhoneNotice | TemplateKind::MeetingAgenda => "成文日期"@,
            TemplateKind::WhitePaper | TemplateKind::RedHeadApproval => "落款 · 承办 · 成文日期"@,
            _ => "抄送 · 承办 · 成文日期"@,
        },
    }
}

impl FormSection {
    /// Position of the part on paper: 0, 1, 2.
    pub open spec fn index_spec(self) -> int {
        match self {
            FormSection::Header => 0,
            FormSection::Body => 1,
            FormSection::Record => 2,
        }
    }

    pub fn index(self) -> (r: usize)
        ensures
            r as int == self.index_spec(),
            r == match self {
                FormSection::Header => 0usize,
                FormSection::Body => 1usize,
                FormSection::Record => 2usize,
            },
    {
        match self {
            FormSection::Header => 0,
            FormSection::Body => 1,
            FormSection::Record => 2,
        }
    }

    pub fn label(self) -> (r: &'static str)
        ensures
            r@ == match self {
                FormSection::Header => "版头"@,
                FormSection::Body => "主体"@,
                FormSection::Record => "版记"@,
            },
    {
        match self {
            FormSection::Header => "版头",
            FormSection::Body => "主体",
            FormSection::Record => "版记",
        }
    }

    /// The items of the paper that this part holds, for the kind of
    /// document, so that the part's name needs no explaining.
    pub fn hint(self, kind: TemplateKind) -> (r: &'static str)
        ensures
            r@ == section_hint(self, kind),
    {
        match (self, kind) {
            (FormSection::Header, TemplateKind::PlainDocument) => "密级",
            (FormSection::Header, TemplateKind::MeetingAgenda) => "密级",
            (FormSection::Header, _) => "密级 · 红头 · 文号",
            (FormSection::Body, TemplateKind::MeetingAgenda) => "会议时间 · 地点 · 人员",
            (FormSection::Body, TemplateKind::WhitePaper) => "呈报领导 · 标题",
            (FormSection::Body, TemplateKind::RedHeadApproval) => "呈报领导 · 标题",
            (FormSection::Body, TemplateKind::PlainDocument) => "标题 · 体例",
            (FormSection::Body, _) => "主送 · 标题",
            (FormSection::Record, TemplateKind::PlainDocument) => "打印方式",
            (FormSection::Record, TemplateKind::PhoneNotice) => "成文日期",
            (FormSection::Record, TemplateKind::MeetingAgenda) => "成文日期",
            (FormSection::Record, TemplateKind::WhitePaper) => "落款 · 承办 · 成文日期",
            (FormSection::Record, TemplateKind::RedHeadApproval) => "落款 · 承办 · 成文日期",
            (FormSection::Record, _) => "抄送 · 承办 · 成文日期",
        }
    }
}

/// Fill-in progress of one part: only required items count, or the bar
/// would never fill.
#[derive(Debug, Default, Clone, Copy)]
pub struct SectionProgress {
    pub done: usize,
    pub total: usize,
}

impl SectionProgress {
    /// Required items still empty.
    pub fn missing(self) -> (r: usize)
        ensures
            r == if self.done <= self.total {
                self.total - self.done
            } else {
                0
            },
    {
        if self.done <= self.total {
            self.total - self.done
        } else {
            0
        }
    }
}

// ---------------------------------------------------------------------------
// Unsaved and uncommitted changes of an open draft.

/// Where a manuscript record stands in its life.
#[derive(Debug, Clone, Copy, PartialEq, Eq, Structural)]
pub enum ManuscriptStatus {
    New,
    Draft,
    Published,
    Archived,
}

/// What decides whether an open draft has changes to save or to commit: its
/// record, the record's status, and the contents last saved, last committed
/// and seen when it was opened. A content is the draft's elements, written
/// out as JSON, and its body text.
pub struct DraftSession {
    /// The record in the manuscript store; `None` until the first save.
    pub manuscript_id: Option<i64>,
    pub record_status: ManuscriptStatus,
    /// `(elements, body)` as last written to the store.
    pub saved_baseline: Option<(String, String)>,
    /// `(elements, body)` of the latest committed version.
    pub committed_baseline: Option<(String, String)>,
    /// The fingerprint of the content when opened or last saved.
    pub opened_fingerprint: String,
}

/// The fingerprint of a content: elements and body, set apart by U+0001.
pub open spec fn fingerprint_of(draft_json: Seq<char>, markdown: Seq<char>) -> Seq<char> {
    draft_json + seq!['\u{1}'] + markdown
}

/// Whether a content differs from a baseline `(elements, body)`.
pub open spec fn differs_from(baseline: (String, String), draft_json: Seq<char>, markdown: Seq<char>) -> bool {
    baseline.1@ != markdown || baseline.0@ != draft_json
}

fn fingerprint(draft_json: &str, markdown: &str) -> (r: String)
    ensures
        r@ == fingerprint_of(draft_json@, markdown@),
{
    let mut out = String::new();
    crate::text::push_str(&mut out, draft_json);
    out.push('\u{1}');
    crate::text::push_str(&mut out, markdown);
    out
}

fn differs(baseline: &(String, String), draft_json: &str, markdown: &str) -> (r: bool)
    ensures
        r == differs_from(*baseline, draft_json@, markdown@),
{
    !crate::doc_import::str_eq(baseline.1.as_str(), markdown) || !crate::doc_import::str_eq(baseline.0.as_str(), draft_json)
}

fn has_text(s: &str) -> (r: bool)
    ensures
        r == !crate::text::is_blank(s@),
{
    let v = chars_of(s);
    let (a, b) = crate::text::trim_bounds(&v, 0, v.len());
    proof {
        assert(v@.subrange(0, v.len() as int) =~= v@);
        crate::text::lemma_trim_empty_iff_blank(s@);
    }
    a < b
}

impl DraftSession {
    /// The session of a draft just opened: nothing saved or committed yet.
    pub fn from_parts(manuscript_id: Option<i64>, draft_json: &str, markdown: &str) -> (r: Self)
        ensures
            r.manuscript_id == manuscript_id,
            r.record_status == ManuscriptStatus::Draft,
            r.saved_baseline is None,
            r.committed_baseline is None,
            !r.is_touched(draft_json@, markdown@),
    {
        DraftSession {
            manuscript_id,
            record_status: ManuscriptStatus::Draft,
            saved_baseline: None,
            committed_baseline: None,
            opened_fingerprint: fingerprint(draft_json, markdown),
        }
    }

    /// Published or archived records open read-only.
    pub open spec fn is_read_only(&self) -> bool {
        self.manuscript_id is Some && (self.record_status == ManuscriptStatus::Published
            || self.record_status == ManuscriptStatus::Archived)
    }

    /// Whether the content differs from the one seen at opening.
    pub open spec fn is_touched(&self, draft_json: Seq<char>, markdown: Seq<char>) -> bool {
        fingerprint_of(draft_json, markdown) != self.opened_fingerprint@
    }

    /// Whether the content has changes not written to the store; a draft
    /// never stored counts as changed once it has a body or a title.
    pub open spec fn dirty(&self, draft_json: Seq<char>, markdown: Seq<char>, title_hint: Seq<char>) -> bool {
        if self.is_read_only() {
            false
        } else {
            match self.saved_baseline {
                Some(b) => differs_from(b, draft_json, markdown),
                None => !crate::text::is_blank(markdown) || !crate::text::is_blank(title_hint),
            }
        }
    }

    /// Whether a stored, saved draft has changed since its latest committed
    /// version; with no version committed, whether it has a body.
    pub open spec fn uncommitted(&self, draft_json: Seq<char>, markdown: Seq<char>, title_hint: Seq<char>) -> bool {
        if self.manuscript_id is None || self.is_read_only() || self.dirty(draft_json, markdown, title_hint) {
            false
        } else {
            match self.committed_baseline {
                Some(b) => differs_from(b, draft_json, markdown),
                None => !crate::text::is_blank(markdown),
            }
        }
    }

    /// Published or archived: the whole draft is read-only.
    pub fn read_only(&self) -> (r: bool)
        ensures
            r == self.is_read_only(),
    {
        self.manuscript_id.is_some() && match self.record_status {
            ManuscriptStatus::Published | ManuscriptStatus::Archived => true,
            _ => false,
        }
    }

    /// Whether the content was changed since the draft was opened or last
    /// saved; a new draft is stored only once it was.
    pub fn touched(&self, draft_json: &str, markdown: &str) -> (r: bool)
        ensures
            r == self.is_touched(draft_json@, markdown@),
    {
        let now = fingerprint(draft_json, markdown);
        !crate::doc_import::str_eq(now.as_str(), self.opened_fingerprint.as_str())
    }

    /// Record the content as saved: after loading a record, a successful
    /// save, or loading a version.
    pub fn mark_saved(&mut self, draft_json: &str, markdown: &str)
        ensures
            final(self).manuscript_id == old(self).manuscript_id,
            final(self).record_status == old(self).record_status,
            final(self).committed_baseline == old(self).committed_baseline,
            final(self).saved_baseline matches Some(b) && b.0@ == draft_json@ && b.1@ == markdown@,
            !final(self).is_touched(draft_json@, markdown@),
            forall|title_hint: Seq<char>| !final(self).dirty(draft_json@, markdown@, title_hint),
    {
        self.opened_fingerprint = fingerprint(draft_json, markdown);
        self.saved_baseline = Some((draft_json.to_string(), markdown.to_string()));
    }

    /// Whether the content has changes not yet written to the store.
    pub fn is_dirty(&self, draft_json: &str, markdown: &str, title_hint: &str) -> (r: bool)
        ensures
            r == self.dirty(draft_json@, markdown@, title_hint@),
    {
        if self.read_only() {
            return false;
        }
        match &self.saved_baseline {
            Some(b) => differs(b, draft_json, markdown),
            None => has_text(markdown) || has_text(title_hint),
        }
    }

    /// Whether the stored draft has changes no committed version holds.
    pub fn has_uncommitted(&self, draft_json: &str, markdown: &str, title_hint: &str) -> (r: bool)
        ensures
            r == self.uncommitted(draft_json@, markdown@, title_hint@),
    {
        if self.manuscript_id.is_none() || self.read_only() || self.is_dirty(draft_json, markdown, title_hint) {
            return false;
        }
        match &self.committed_baseline {
            Some(b) => differs(b, draft_json, markdown),
            None => has_text(markdown),
        }
    }

    /// The mark on the draft's tab: a dot for unsaved changes, a ring for
    /// saved changes not yet committed as a version, nothing otherwise.
    pub fn dirty_mark(&self, draft_json: &str, markdown: &str, title_hint: &str) -> (r: &'static str)
        ensures
            r@ == if self.dirty(draft_json@, markdown@, title_hint@) {
                "●"@
            } else if self.uncommitted(draft_json@, markdown@, title_hint@) {
                "○"@
            } else {
                ""@
            },
    {
        if self.is_dirty(draft_json, markdown, title_hint) {
            "●"
        } else if self.has_uncommitted(draft_json, markdown, title_hint) {
            "○"
        } else {
            ""
        }
    }

    /// Record the content of the latest committed version.
    pub fn set_committed_baseline(&mut self, latest: Option<(String, String)>)
        ensures
            final(self).committed_baseline == latest,
            final(self).manuscript_id == old(self).manuscript_id,
            final(self).record_status == old(self).record_status,
            final(self).saved_baseline == old(self).saved_baseline,
            final(self).opened_fingerprint == old(self).opened_fingerprint,
    {
        self.committed_baseline = latest;
    }
}

// ---------------------------------------------------------------------------
// The finished files of the output ribbon.

/// Whether export folder `a` (modification time, name) comes before `b`
/// when the newest go first: later modified, or as late and named after.
pub open spec fn goes_before(a: (u64, Seq<char>), b: (u64, Seq<char>)) -> bool {
    a.0 > b.0 || (a.0 == b.0 && crate::crash_log::lex_lt(b.1, a.1))
}

/// Where folder `x` goes in `order`: after every leading folder it does not
/// come before.
pub open spec fn folder_pos(order: Seq<int>, dirs: Seq<(u64, Seq<char>)>, x: int) -> int
    decreases order.len(),
{
    if order.len() > 0 && !goes_before(dirs[x], dirs[order[0]]) {
        1 + folder_pos(order.drop_first(), dirs, x)
    } else {
        0
    }
}

/// The first `k` folders, newest first, as a stable sort orders them.
pub open spec fn newest_order(dirs: Seq<(u64, Seq<char>)>, k: int) -> Seq<int>
    decreases k,
{
    if k <= 0 {
        seq![]
    } else {
        let p = newest_order(dirs, k - 1);
        p.insert(folder_pos(p, dirs, k - 1), k - 1)
    }
}

pub open spec fn dirs_model(dirs: Seq<(u64, String)>) -> Seq<(u64, Seq<char>)> {
    dirs.map_values(|d: (u64, String)| (d.0, d.1@))
}

proof fn lemma_folder_pos_skip(order: Seq<int>, dirs: Seq<(u64, Seq<char>)>, x: int, p: int)
    requires
        0 <= p <= order.len(),
        forall|t: int| 0 <= t < p ==> !goes_before(dirs[x], dirs[#[trigger] order[t]]),
    ensures
        folder_pos(order, dirs, x) == p + folder_pos(order.skip(p), dirs, x),
    decreases p,
{
    if p > 0 {
        assert forall|t: int| 0 <= t < p - 1 implies !goes_before(dirs[x], dirs[#[trigger] order.drop_first()[t]]) by {
            assert(order.drop_first()[t] == order[t + 1]);
        }
        lemma_folder_pos_skip(order.drop_first(), dirs, x, p - 1);
        assert(order.drop_first().skip(p - 1) =~= order.skip(p));
    } else {
        assert(order.skip(0) =~= order);
    }
}

fn folder_before(dirs: &Vec<(u64, String)>, k: usize, j: usize) -> (r: bool)
    requires
        k < dirs.len(),
        j < dirs.len(),
    ensures
        r == goes_before(dirs_model(dirs@)[k as int], dirs_model(dirs@)[j as int]),
{
    let x = chars_of(dirs[k].1.as_str());
    let y = chars_of(dirs[j].1.as_str());
    dirs[k].0 > dirs[j].0 || (dirs[k].0 == dirs[j].0 && crate::crash_log::lex_lt_exec(&y, &x))
}

/// The export folders, newest first (by modification time, then name).
pub fn newest_first(dirs: &Vec<(u64, String)>) -> (r: Vec<usize>)
    ensures
        r@.map_values(|i: usize| i as int) == newest_order(dirs_model(dirs@), dirs.len() as int),
{
    let ghost dm = dirs_model(dirs@);
    let mut out: Vec<usize> = Vec::new();
    let mut k: usize = 0;
    while k < dirs.len()
        invariant
            k <= dirs.len(),
            dm == dirs_model(dirs@),
            out@.map_values(|i: usize| i as int) == newest_order(dm, k as int),
            forall|t: int| 0 <= t < out.len() ==> #[trigger] out@[t] < k,
        decreases dirs.len() - k,
    {
        let ghost om = out@.map_values(|i: usize| i as int);
        let mut p: usize = 0;
        while p < out.len() && !folder_before(dirs, k, out[p])
            invariant
                p <= out.len(),
                k < dirs.len(),
                om == out@.map_values(|i: usize| i as int),
                dm == dirs_model(dirs@),
                forall|t: int| 0 <= t < out.len() ==> #[trigger] out@[t] < k,
                forall|t: int| 0 <= t < p ==> !goes_before(dm[k as int], dm[#[trigger] om[t]]),
            decreases out.len() - p,
        {
            assert(om[p as int] == out@[p as int] as int);
            p += 1;
        }
        proof {
            lemma_folder_pos_skip(om, dm, k as int, p as int);
            if p < out.len() {
                assert(om.skip(p as int)[0] == om[p as int]);
                assert(om[p as int] == out@[p as int] as int);
            }
            assert(folder_pos(om.skip(p as int), dm, k as int) == 0);
        }
        out.insert(p, k);
        assert(out@.map_values(|i: usize| i as int) =~= om.insert(p as int, k as int));
        k += 1;
    }
    out
}

/// The newest file of each finished format found so far.
pub struct ExportPicks {
    pub tex: Option<String>,
    pub pdf: Option<String>,
    pub docx: Option<String>,
}

pub open spec fn opt_model(o: Option<String>) -> Option<Seq<char>> {
    match o {
        Some(s) => Some(s@),
        None => None,
    }
}

/// The format a file is of, by its extension.
pub open spec fn file_kind(extension: Option<Seq<char>>) -> Option<ExportKind> {
    match extension {
        Some(e) => kind_of_extension(e),
        None => None,
    }
}

impl ExportPicks {
    pub open spec fn slot(&self, kind: ExportKind) -> Option<Seq<char>> {
        match kind {
            ExportKind::Tex => opt_model(self.tex),
            ExportKind::Pdf => opt_model(self.pdf),
            ExportKind::Word => opt_model(self.docx),
        }
    }

    /// Nothing found yet.
    pub fn new() -> (r: ExportPicks)
        ensures
            r.tex is None && r.pdf is None && r.docx is None,
    {
        ExportPicks { tex: None, pdf: None, docx: None }
    }

    /// Every format found: the scan can stop.
    pub fn complete(&self) -> (r: bool)
        ensures
            r == (self.tex is Some && self.pdf is Some && self.docx is Some),
    {
        self.tex.is_some() && self.pdf.is_some() && self.docx.is_some()
    }

    /// Look at one file, given its path and extension: the first file found
    /// of a format is kept (the scan goes from new to old).
    pub fn take(&mut self, path: &str, extension: Option<&str>)
        ensures
            forall|kind: ExportKind|
                #[trigger] final(self).slot(kind) == if file_kind(
                    match extension {
                        Some(e) => Some(e@),
                        None => None,
                    },
                ) == Some(kind) && old(self).slot(kind) is None {
                    Some(path@)
                } else {
                    old(self).slot(kind)
                },
    {
        let kind = match extension {
            Some(e) => ExportKind::from_extension(e),
            None => None,
        };
        let found = crate::text::string_of(&chars_of(path));
        match kind {
            Some(ExportKind::Tex) => if self.tex.is_none() {
                self.tex = Some(found);
            },
            Some(ExportKind::Pdf) => if self.pdf.is_none() {
                self.pdf = Some(found);
            },
            Some(ExportKind::Word) => if self.docx.is_none() {
                self.docx = Some(found);
            },
            None => {},
        }
    }
}

/// Folder `a` is at least as new as `b`: modified later, or as late and
/// named no earlier.
pub open spec fn newer_or_same(a: (u64, Seq<char>), b: (u64, Seq<char>)) -> bool {
    a.0 > b.0 || (a.0 == b.0 && crate::crash_log::lex_le(b.1, a.1))
}

proof fn lemma_newer_or_same_transitive(a: (u64, Seq<char>), b: (u64, Seq<char>), c: (u64, Seq<char>))
    requires
        newer_or_same(a, b),
        newer_or_same(b, c),
    ensures
        newer_or_same(a, c),
{
    if a.0 == b.0 && b.0 == c.0 {
        crate::crash_log::lemma_lex_le_transitive(c.1, b.1, a.1);
    }
}

proof fn lemma_goes_before_newer(a: (u64, Seq<char>), b: (u64, Seq<char>))
    ensures
        goes_before(a, b) ==> newer_or_same(a, b),
        !goes_before(a, b) ==> newer_or_same(b, a),
{
    if a.0 == b.0 && crate::crash_log::lex_lt(b.1, a.1) && crate::crash_log::lex_lt(a.1, b.1) {
        crate::crash_log::lemma_lex_transitive(a.1, b.1, a.1);
        crate::crash_log::lemma_lex_irreflexive(a.1);
    }
}

/// The order lists the folders `dirs[order[i]]`, newest first.
pub open spec fn newest_sorted(order: Seq<int>, dirs: Seq<(u64, Seq<char>)>) -> bool {
    forall|i: int, j: int| 0 <= i < j < order.len() ==> newer_or_same(dirs[#[trigger] order[i]], dirs[#[trigger] order[j]])
}

proof fn lemma_folder_pos(order: Seq<int>, dirs: Seq<(u64, Seq<char>)>, x: int)
    ensures
        0 <= folder_pos(order, dirs, x) <= order.len(),
        forall|t: int| 0 <= t < folder_pos(order, dirs, x) ==> newer_or_same(dirs[#[trigger] order[t]], dirs[x]),
        folder_pos(order, dirs, x) < order.len() ==> newer_or_same(dirs[x], dirs[order[folder_pos(order, dirs, x)]]),
    decreases order.len(),
{
    if order.len() > 0 {
        lemma_goes_before_newer(dirs[x], dirs[order[0]]);
        if !goes_before(dirs[x], dirs[order[0]]) {
            let rest = order.drop_first();
            lemma_folder_pos(rest, dirs, x);
            assert forall|t: int| 0 <= t < folder_pos(order, dirs, x) implies newer_or_same(dirs[#[trigger] order[t]], dirs[x]) by {
                if t > 0 {
                    assert(order[t] == rest[t - 1]);
                }
            }
            if folder_pos(order, dirs, x) < order.len() {
                assert(order[folder_pos(order, dirs, x)] == rest[folder_pos(rest, dirs, x)]);
            }
        }
    }
}

proof fn lemma_newest_order(dirs: Seq<(u64, Seq<char>)>, k: int)
    requires
        0 <= k <= dirs.len(),
    ensures
        newest_order(dirs, k).len() == k,
        forall|t: int| 0 <= t < k ==> 0 <= #[trigger] newest_order(dirs, k)[t] < k,
        forall|s: int, t: int| 0 <= s < t < k ==> #[trigger] newest_order(dirs, k)[s] != #[trigger] newest_order(dirs, k)[t],
        newest_sorted(newest_order(dirs, k), dirs),
    decreases k,
{
    if k > 0 {
        let p = newest_order(dirs, k - 1);
        lemma_newest_order(dirs, k - 1);
        let x = k - 1;
        lemma_folder_pos(p, dirs, x);
        let m = folder_pos(p, dirs, x);
        let q = p.insert(m, x);
        assert(q == newest_order(dirs, k));
        assert forall|t: int| 0 <= t < k implies 0 <= #[trigger] q[t] < k by {
            if t > m {
                assert(q[t] == p[t - 1]);
            } else if t < m {
                assert(q[t] == p[t]);
            }
        }
        assert forall|s: int, t: int| 0 <= s < t < k implies #[trigger] q[s] != #[trigger] q[t] by {
            if t < m {
                assert(q[s] == p[s] && q[t] == p[t]);
            } else if t == m {
                assert(q[s] == p[s]);
            } else if s < m {
                assert(q[s] == p[s] && q[t] == p[t - 1]);
            } else if s == m {
                assert(q[t] == p[t - 1]);
            } else {
                assert(q[s] == p[s - 1] && q[t] == p[t - 1]);
            }
        }
        assert forall|i: int, j: int| 0 <= i < j < q.len() implies newer_or_same(dirs[#[trigger] q[i]], dirs[#[trigger] q[j]]) by {
            if j < m {
                assert(q[i] == p[i] && q[j] == p[j]);
            } else if j == m {
                assert(q[i] == p[i]);
            } else if i < m {
                assert(q[i] == p[i] && q[j] == p[j - 1]);
                lemma_newer_or_same_transitive(dirs[p[i]], dirs[x], dirs[p[m]]);
                if m < j - 1 {
                    lemma_newer_or_same_transitive(dirs[p[i]], dirs[p[m]], dirs[p[j - 1]]);
                }
            } else if i == m {
                assert(q[j] == p[j - 1]);
                if m < j - 1 {
                    lemma_newer_or_same_transitive(dirs[x], dirs[p[m]], dirs[p[j - 1]]);
                }
            } else {
                assert(q[i] == p[i - 1] && q[j] == p[j - 1]);
            }
        }
    }
}

/// The export folders come newest first: the order lists every folder once,
/// and each folder in it is modified no earlier than the next, a tie going
/// to the name that sorts later.
pub proof fn lemma_newest_first_order(dirs: Seq<(u64, Seq<char>)>)
    ensures
        ({
            let o = newest_order(dirs, dirs.len() as int);
            &&& o.len() == dirs.len()
            &&& forall|t: int| 0 <= t < o.len() ==> 0 <= #[trigger] o[t] < dirs.len()
            &&& forall|s: int, t: int| 0 <= s < t < o.len() ==> #[trigger] o[s] != #[trigger] o[t]
            &&& forall|i: int, j: int| 0 <= i < j < o.len() ==> {
                let a = dirs[#[trigger] o[i]];
                let b = dirs[#[trigger] o[j]];
                a.0 > b.0 || (a.0 == b.0 && !crate::crash_log::lex_lt(a.1, b.1))
            }
        }),
{
    lemma_newest_order(dirs, dirs.len() as int);
}

} // verus!
