//! Records that the comparison engine reads: document elements of a draft,
//! its layout profile, vocabulary entries and the global settings. Only the
//! fields that take part in a comparison are held here.

use vstd::prelude::*;

verus! {

/// Kind of official document.
#[derive(Debug, Clone, Copy, PartialEq, Eq, Structural, Default)]
pub enum TemplateKind {
    #[default]
    OfficialLetter,
    PhoneNotice,
    PlainDocument,
    MeetingAgenda,
    WhitePaper,
    RedHeadApproval,
}

pub open spec fn kind_label(kind: TemplateKind) -> Seq<char> {
    match kind {
        TemplateKind::OfficialLetter => "公函"@,
        TemplateKind::PhoneNotice => "电话通知"@,
        TemplateKind::PlainDocument => "普通公文"@,
        TemplateKind::MeetingAgenda => "会议议程"@,
        TemplateKind::WhitePaper => "白头件"@,
        TemplateKind::RedHeadApproval => "红头呈批件"@,
    }
}

/// Every kind, in the order the settings list them.
pub open spec fn all_kinds() -> Seq<TemplateKind> {
    seq![
        TemplateKind::OfficialLetter,
        TemplateKind::PhoneNotice,
        TemplateKind::PlainDocument,
        TemplateKind::MeetingAgenda,
        TemplateKind::WhitePaper,
        TemplateKind::RedHeadApproval,
    ]
}

impl TemplateKind {
    pub fn label(self) -> (r: &'static str)
        ensures
            r@ == kind_label(self),
    {
        match self {
            TemplateKind::OfficialLetter => "公函",
            TemplateKind::PhoneNotice => "电话通知",
            TemplateKind::PlainDocument => "普通公文",
            TemplateKind::MeetingAgenda => "会议议程",
            TemplateKind::WhitePaper => "白头件",
            TemplateKind::RedHeadApproval => "红头呈批件",
        }
    }

    /// Every kind, in the order the settings list them.
    pub fn all() -> (r: Vec<TemplateKind>)
        ensures
            r@ == all_kinds(),
    {
        let r = vec![
            TemplateKind::OfficialLetter,
            TemplateKind::PhoneNotice,
            TemplateKind::PlainDocument,
            TemplateKind::MeetingAgenda,
            TemplateKind::WhitePaper,
            TemplateKind::RedHeadApproval,
        ];
        assert(r@ =~= all_kinds());
        r
    }
}

/// Whether a document goes to bodies inside or outside the issuing unit.
#[derive(Debug, Clone, Copy, PartialEq, Eq, Structural, Default)]
pub enum CorrespondenceScope {
    #[default]
    Internal,
    External,
}

pub open spec fn scope_label(v: CorrespondenceScope) -> Seq<char> {
    match v {
        CorrespondenceScope::Internal => "对内行文"@,
        CorrespondenceScope::External => "对外行文"@,
    }
}

impl CorrespondenceScope {
    pub fn label(self) -> (r: &'static str)
        ensures
            r@ == scope_label(self),
    {
        match self {
            CorrespondenceScope::Internal => "对内行文",
            CorrespondenceScope::External => "对外行文",
        }
    }
}

/// Whether a document is issued by one unit or jointly.
#[derive(Debug, Clone, Copy, PartialEq, Eq, Structural, Default)]
pub enum JointIssuanceMode {
    #[default]
    Single,
    Mode1,
}

pub open spec fn joint_label(v: JointIssuanceMode) -> Seq<char> {
    match v {
        JointIssuanceMode::Single => "单独发文"@,
        JointIssuanceMode::Mode1 => "联合发文"@,
    }
}

impl JointIssuanceMode {
    pub fn label(self) -> (r: &'static str)
        ensures
            r@ == joint_label(self),
    {
        match self {
            JointIssuanceMode::Single => "单独发文",
            JointIssuanceMode::Mode1 => "联合发文",
        }
    }
}

/// Preview letters leave the serial number and the day blank.
#[derive(Debug, Clone, Copy, PartialEq, Eq, Structural, Default)]
pub enum LetterVersion {
    #[default]
    Preview,
    Formal,
}

pub open spec fn version_label(v: LetterVersion) -> Seq<char> {
    match v {
        LetterVersion::Preview => "预览版"@,
        LetterVersion::Formal => "正式版"@,
    }
}

impl LetterVersion {
    pub fn label(self) -> (r: &'static str)
        ensures
            r@ == version_label(self),
    {
        match self {
            LetterVersion::Preview => "预览版",
            LetterVersion::Formal => "正式版",
        }
    }
}

/// Typesetting style of the body.
#[derive(Debug, Clone, Copy, PartialEq, Eq, Structural, Default)]
pub enum StyleMode {
    #[default]
    Standard,
    Compact,
}

pub open spec fn style_label(v: StyleMode) -> Seq<char> {
    match v {
        StyleMode::Standard => "标准"@,
        StyleMode::Compact => "紧凑"@,
    }
}

impl StyleMode {
    pub fn label(self) -> (r: &'static str)
        ensures
            r@ == style_label(self),
    {
        match self {
            StyleMode::Standard => "标准",
            StyleMode::Compact => "紧凑",
        }
    }
}

/// One row of the handling units of a joint document: the unit, its
/// contact person and the person's phone.
#[derive(Debug, Clone, Default)]
pub struct JointContact {
    pub unit: String,
    pub name: String,
    pub phone: String,
}

/// Layout profile of a document: issuing units, numbering, marking, style.
#[derive(Debug, Clone, Default)]
pub struct TemplateProfile {
    pub kind: TemplateKind,
    pub correspondence_scope: CorrespondenceScope,
    pub joint_issuance_mode: JointIssuanceMode,
    pub issuing_unit: String,
    pub joint_issuing_units: String,
    pub main_issuing_unit: String,
    pub department_code: String,
    pub document_year: String,
    pub recipient: String,
    pub copies_to: String,
    pub responsible_unit: String,
    pub joint_responsible_units: String,
    pub contact_person: String,
    pub contact_phone: String,
    pub joint_contacts: Vec<JointContact>,
    pub reporting_leaders: String,
    pub signing_unit: String,
    pub security_level: String,
    pub security_period: String,
    pub special_handling: bool,
    pub document_number: String,
    pub meeting_location: String,
    pub letter_version: LetterVersion,
    pub style_mode: StyleMode,
    pub duplex_printing: bool,
}

/// A profile of `kind` with nothing filled in.
pub open spec fn is_blank_profile(p: TemplateProfile, kind: TemplateKind) -> bool {
    &&& p.kind == kind
    &&& p.correspondence_scope == CorrespondenceScope::Internal
    &&& p.joint_issuance_mode == JointIssuanceMode::Single
    &&& p.issuing_unit@.len() == 0
    &&& p.joint_issuing_units@.len() == 0
    &&& p.main_issuing_unit@.len() == 0
    &&& p.department_code@.len() == 0
    &&& p.document_year@.len() == 0
    &&& p.recipient@.len() == 0
    &&& p.copies_to@.len() == 0
    &&& p.responsible_unit@.len() == 0
    &&& p.joint_responsible_units@.len() == 0
    &&& p.contact_person@.len() == 0
    &&& p.contact_phone@.len() == 0
    &&& p.joint_contacts@.len() == 0
    &&& p.reporting_leaders@.len() == 0
    &&& p.signing_unit@.len() == 0
    &&& p.security_level@.len() == 0
    &&& p.security_period@.len() == 0
    &&& !p.special_handling
    &&& p.document_number@.len() == 0
    &&& p.meeting_location@.len() == 0
    &&& p.letter_version == LetterVersion::Preview
    &&& p.style_mode == StyleMode::Standard
    &&& !p.duplex_printing
}

impl TemplateProfile {
    /// The empty profile of a kind: what a kind without a saved profile uses.
    pub fn blank(kind: TemplateKind) -> (p: TemplateProfile)
        ensures
            is_blank_profile(p, kind),
    {
        TemplateProfile {
            kind,
            correspondence_scope: CorrespondenceScope::Internal,
            joint_issuance_mode: JointIssuanceMode::Single,
            issuing_unit: String::new(),
            joint_issuing_units: String::new(),
            main_issuing_unit: String::new(),
            department_code: String::new(),
            document_year: String::new(),
            recipient: String::new(),
            copies_to: String::new(),
            responsible_unit: String::new(),
            joint_responsible_units: String::new(),
            contact_person: String::new(),
            contact_phone: String::new(),
            joint_contacts: Vec::new(),
            reporting_leaders: String::new(),
            signing_unit: String::new(),
            security_level: String::new(),
            security_period: String::new(),
            special_handling: false,
            document_number: String::new(),
            meeting_location: String::new(),
            letter_version: LetterVersion::Preview,
            style_mode: StyleMode::Standard,
            duplex_printing: false,
        }
    }
}

/// The document elements of a draft.
#[derive(Debug, Clone, Default)]
pub struct DraftInput {
    pub kind: TemplateKind,
    pub title_hint: String,
    pub date: String,
    pub meeting_time: String,
    pub attendees: String,
    pub profile: TemplateProfile,
}

/// Category of a vocabulary entry.
#[derive(Debug, Clone, Copy, PartialEq, Eq, Structural, Default)]
pub enum VocabularyCategory {
    #[default]
    Unit,
    Person,
}

/// An entry of the standard vocabulary: a unit or a person.
#[derive(Debug, Clone, Default)]
pub struct VocabularyEntry {
    /// Stable identity across edits.
    pub id: u64,
    pub category: VocabularyCategory,
    pub code: String,
    pub canonical: String,
    pub abbr: String,
    pub external_name: String,
    pub department_code: String,
    pub seal_on_behalf: bool,
    pub parent: String,
    pub unit: String,
    pub aliases: Vec<String>,
    pub phone: String,
    pub position: String,
    pub can_handle_parent_unit: bool,
    pub note: String,
}

/// Connection to the local language-model server. The temperature is held as
/// the text it is shown and compared as.
#[derive(Debug, Clone, Default)]
pub struct LmStudioConfig {
    pub base_url: String,
    pub model: String,
    pub api_key: String,
    pub temperature: String,
    pub max_tokens: u64,
    pub timeout_seconds: u64,
}

/// Which formats an export writes.
#[derive(Debug, Clone, Default)]
pub struct ExportConfig {
    pub markdown: bool,
    pub docx: bool,
    pub tex: bool,
    pub overwrite: bool,
}

/// Upper bounds of the secrecy periods.
#[derive(Debug, Clone, Default)]
pub struct SecurityRules {
    pub secret_max_years: u64,
    pub confidential_max_years: u64,
    pub top_secret_max_years: u64,
    pub allow_long_term: bool,
}

/// Global settings: vocabulary, saved layout profiles and preferences.
#[derive(Debug, Clone, Default)]
pub struct AppConfig {
    pub vocabulary: Vec<VocabularyEntry>,
    /// Saved default profiles; a kind without one uses the empty profile.
    pub profiles: Vec<TemplateProfile>,
    pub lm_studio: LmStudioConfig,
    pub output_dir: String,
    pub export: ExportConfig,
    pub auto_export: bool,
    pub allow_free_text: bool,
    pub show_editor_line_numbers: bool,
    pub security_rules: SecurityRules,
}

/// Index of the first saved profile of `kind`, or -1 when none is saved.
pub open spec fn saved_profile_index(ps: Seq<TemplateProfile>, kind: TemplateKind) -> int
    decreases ps.len(),
{
    if ps.len() == 0 {
        -1
    } else if ps[0].kind == kind {
        0
    } else {
        let rest = saved_profile_index(ps.drop_first(), kind);
        if rest < 0 {
            -1
        } else {
            rest + 1
        }
    }
}

/// The profile that settings give a kind: the first saved one, else a blank
/// profile of that kind.
pub open spec fn profile_of(c: AppConfig, kind: TemplateKind) -> TemplateProfile {
    let k = saved_profile_index(c.profiles@, kind);
    if k >= 0 {
        c.profiles@[k]
    } else {
        choose|p: TemplateProfile| is_blank_profile(p, kind)
    }
}

impl AppConfig {
    /// Position of the first saved profile of `kind`.
    pub fn saved_profile(&self, kind: TemplateKind) -> (r: Option<usize>)
        ensures
            match r {
                Some(k) => k == saved_profile_index(self.profiles@, kind) && k < self.profiles.len(),
                None => saved_profile_index(self.profiles@, kind) == -1,
            },
    {
        let mut k: usize = 0;
        while k < self.profiles.len()
            invariant
                k <= self.profiles.len(),
                forall|t: int| 0 <= t < k ==> self.profiles@[t].kind != kind,
            decreases self.profiles.len() - k,
        {
            if self.profiles[k].kind == kind {
                proof { lemma_saved_profile_index(self.profiles@, kind, k as int); }
                return Some(k);
            }
            k += 1;
        }
        proof { lemma_saved_profile_index(self.profiles@, kind, self.profiles.len() as int); }
        None
    }
}

proof fn lemma_saved_profile_index(ps: Seq<TemplateProfile>, kind: TemplateKind, k: int)
    requires
        0 <= k <= ps.len(),
        forall|t: int| 0 <= t < k ==> ps[t].kind != kind,
    ensures
        k < ps.len() && ps[k].kind == kind ==> saved_profile_index(ps, kind) == k,
        k == ps.len() ==> saved_profile_index(ps, kind) == -1,
    decreases k,
{
    if k > 0 {
        assert forall|t: int| 0 <= t < k - 1 implies ps.drop_first()[t].kind != kind by {
            assert(ps.drop_first()[t] == ps[t + 1]);
        }
        lemma_saved_profile_index(ps.drop_first(), kind, k - 1);
        assert(ps[0].kind != kind);
    } else if ps.len() > 0 {
    }
}

/// Document elements of a research report, read from its frontmatter.
#[derive(Debug, Clone)]
pub struct ResearchMetadata {
    pub security: String,
    pub security_years: String,
    pub file_type: String,
    pub file_number: String,
    pub version: String,
    pub institution: String,
    pub date: String,
    pub ident: String,
    pub byline: String,
    pub original_title: String,
    pub bibliography_name: String,
    pub bibliography_content: String,
}

impl Default for ResearchMetadata {
    /// Nothing filled in.
    fn default() -> (r: Self)
        ensures
            r.security@ == Seq::<char>::empty(),
            r.security_years@ == Seq::<char>::empty(),
            r.file_type@ == Seq::<char>::empty(),
            r.file_number@ == Seq::<char>::empty(),
            r.version@ == Seq::<char>::empty(),
            r.institution@ == Seq::<char>::empty(),
            r.date@ == Seq::<char>::empty(),
            r.ident@ == Seq::<char>::empty(),
            r.byline@ == Seq::<char>::empty(),
            r.original_title@ == Seq::<char>::empty(),
            r.bibliography_name@ == Seq::<char>::empty(),
            r.bibliography_content@ == Seq::<char>::empty(),
    {
        ResearchMetadata {
            security: String::new(),
            security_years: String::new(),
            file_type: String::new(),
            file_number: String::new(),
            version: String::new(),
            institution: String::new(),
            date: String::new(),
            ident: String::new(),
            byline: String::new(),
            original_title: String::new(),
            bibliography_name: String::new(),
            bibliography_content: String::new(),
        }
    }
}

/// A committed version of a manuscript.
#[derive(Debug, Clone, Default)]
pub struct VersionRecord {
    pub version_number: i64,
    pub name: String,
    pub comment: String,
    pub snapshot: DraftInput,
    pub content_markdown: String,
    pub notes: String,
    pub created_at: String,
}

/// The saved profile of a kind is the first one of that kind: it is of that
/// kind and none before it is; there is none only when no saved profile is
/// of that kind.
pub proof fn lemma_saved_profile_is_first(ps: Seq<TemplateProfile>, kind: TemplateKind)
    ensures
        saved_profile_index(ps, kind) >= 0 ==> {
            let k = saved_profile_index(ps, kind);
            &&& k < ps.len()
            &&& ps[k].kind == kind
            &&& forall|t: int| 0 <= t < k ==> (#[trigger] ps[t]).kind != kind
        },
        saved_profile_index(ps, kind) < 0 ==> {
            &&& saved_profile_index(ps, kind) == -1
            &&& forall|t: int| 0 <= t < ps.len() ==> (#[trigger] ps[t]).kind != kind
        },
    decreases ps.len(),
{
    if ps.len() > 0 && ps[0].kind != kind {
        let rest = ps.drop_first();
        lemma_saved_profile_is_first(rest, kind);
        assert forall|t: int| 1 <= t < ps.len() implies (#[trigger] ps[t]) == rest[t - 1] by {}
    }
}

} // verus!
