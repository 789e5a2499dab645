//! The rules of the element form: unit lists written with 顿号, which units
//! each picker may still offer, whose people the contact pickers list, the
//! rows of handling units of a joint document, and the required items of
//! each kind of document.

use crate::draft_page::{FormSection, SectionProgress};
use crate::models::{DraftInput, JointContact, JointIssuanceMode, TemplateKind, TemplateProfile, VocabularyCategory, VocabularyEntry};
use crate::text::{chars_of, is_blank, join_text, push_str, split_at_char, split_trimmed, strings_model, trim, trim_bounds};
use crate::widgets::{options_model, OptionModel, SelectOption};
use vstd::prelude::*;

verus! {

// ---------------------------------------------------------------------------
// Unit lists.

/// The non-empty pieces of `ps`, in order.
pub open spec fn non_empty_pieces(ps: Seq<Seq<char>>) -> Seq<Seq<char>>
    decreases ps.len(),
{
    if ps.len() == 0 {
        seq![]
    } else {
        let r = non_empty_pieces(ps.drop_last());
        if ps.last().len() > 0 {
            r.push(ps.last())
        } else {
            r
        }
    }
}

/// The units of a list written with 顿号 between them: each trimmed, empty
/// ones left out.
pub open spec fn units_of(s: Seq<char>) -> Seq<Seq<char>> {
    non_empty_pieces(split_at_char(s, '、').map_values(|p: Seq<char>| trim(p)))
}

/// The units of a list written with 顿号 between them.
pub fn split_units(value: &str) -> (r: Vec<String>)
    ensures
        strings_model(r@) == units_of(value@),
{
    let v = chars_of(value);
    let pieces = split_trimmed(&v, 0, v.len(), '、');
    proof {
        assert(v@.subrange(0, v.len() as int) =~= v@);
    }
    let ghost ps = strings_model(pieces@);
    let mut out: Vec<String> = Vec::new();
    let mut k: usize = 0;
    proof {
        assert(ps.take(0) =~= Seq::<Seq<char>>::empty());
        assert(strings_model(out@) =~= Seq::<Seq<char>>::empty());
    }
    while k < pieces.len()
        invariant
            k <= pieces.len(),
            ps == strings_model(pieces@),
            strings_model(out@) == non_empty_pieces(ps.take(k as int)),
        decreases pieces.len() - k,
    {
        proof {
            assert(ps.take(k + 1).drop_last() =~= ps.take(k as int));
            assert(ps.take(k + 1).last() == pieces@[k as int]@);
        }
        let piece = chars_of(pieces[k].as_str());
        if piece.len() > 0 {
            let ghost before = out@;
            out.push(crate::text::string_of(&piece));
            assert(strings_model(out@) =~= strings_model(before).push(pieces@[k as int]@));
        }
        k += 1;
    }
    proof {
        assert(ps.take(pieces.len() as int) =~= ps);
    }
    out
}

// ---------------------------------------------------------------------------
// What the pickers of the form offer.

/// The units picked as issuers: the joint issuers of a joint document, else
/// the issuing unit.
pub open spec fn issuing_units(p: TemplateProfile) -> Seq<Seq<char>> {
    if p.joint_issuance_mode == JointIssuanceMode::Mode1 {
        units_of(p.joint_issuing_units@)
    } else {
        units_of(p.issuing_unit@)
    }
}

/// The units whose people the contact and leader pickers list: the handling
/// units of a letter, the signing units of a white paper or an approval.
pub open spec fn filter_units_model(d: DraftInput) -> Seq<Seq<char>> {
    match d.kind {
        TemplateKind::OfficialLetter => if d.profile.joint_issuance_mode == JointIssuanceMode::Mode1 {
            units_of(d.profile.joint_responsible_units@)
        } else {
            seq![d.profile.responsible_unit@]
        },
        TemplateKind::WhitePaper | TemplateKind::RedHeadApproval => units_of(d.profile.signing_unit@),
        _ => seq![],
    }
}

/// Whether some filter unit is more than whitespace: only then are the
/// people filtered.
pub open spec fn people_filtered(d: DraftInput) -> bool {
    exists|k: int| 0 <= k < filter_units_model(d).len() && !is_blank(#[trigger] filter_units_model(d)[k])
}

/// The note under the pickers saying whose people they list.
pub open spec fn filter_note_model(d: DraftInput) -> Option<Seq<char>> {
    if !people_filtered(d) {
        None
    } else {
        match d.kind {
            TemplateKind::OfficialLetter => if d.profile.joint_issuance_mode == JointIssuanceMode::Mode1 {
                Some("联系人已按所选承办单位过滤。"@)
            } else {
                Some("联系人已按承办单位“"@ + trim(d.profile.responsible_unit@) + "”过滤。"@)
            },
            TemplateKind::WhitePaper => if units_of(d.profile.signing_unit@).len() == 0 {
                None
            } else {
                Some("呈报领导已按落款单位“"@ + join_text(units_of(d.profile.signing_unit@), "、"@) + "”及其上级领导过滤。"@)
            },
            TemplateKind::RedHeadApproval => if units_of(d.profile.signing_unit@).len() == 0 {
                None
            } else {
                Some(
                    "呈报领导已按落款单位“"@ + join_text(units_of(d.profile.signing_unit@), "、"@)
                        + "”及其上级领导过滤；承办联系人在各承办条目内按单位过滤。"@,
                )
            },
            _ => None,
        }
    }
}

/// Index of the first person of the vocabulary whose trimmed name is
/// `name`, at or after `k`; `-1` when none.
pub open spec fn person_from(vocab: Seq<VocabularyEntry>, name: Seq<char>, k: int) -> int
    decreases vocab.len() - k,
{
    if k < 0 || k >= vocab.len() {
        -1
    } else if vocab[k].category == VocabularyCategory::Person && trim(vocab[k].canonical@) == name {
        k
    } else {
        person_from(vocab, name, k + 1)
    }
}

/// The option of a leader: the name as value; the name with the position as
/// full text; the code in front of that as label.
pub open spec fn leader_option(vocab: Seq<VocabularyEntry>, name: Seq<char>) -> OptionModel {
    let i = person_from(vocab, name, 0);
    let position = if i >= 0 { trim(vocab[i].position@) } else { Seq::<char>::empty() };
    let code = if i >= 0 { trim(vocab[i].code@) } else { Seq::<char>::empty() };
    let full = if position.len() == 0 { name } else { name + seq![' '] + position };
    let label = if code.len() == 0 { full } else { code + seq![' '] + full };
    OptionModel { value: name, label, full, parent: Seq::<char>::empty(), depth: 0 }
}

/// The leader options for the candidates `names`.
pub open spec fn leader_options_model(vocab: Seq<VocabularyEntry>, names: Seq<Seq<char>>) -> Seq<OptionModel> {
    names.map_values(|n: Seq<char>| leader_option(vocab, n))
}

/// What the pickers of the form may offer for a draft.
pub struct FormChoices {
    /// Units the recipient picker blocks: those already copied to or issuing.
    pub blocked_for_recipient: Vec<String>,
    /// Units the copies picker blocks: those already recipients or issuing.
    pub blocked_for_copies: Vec<String>,
    /// Units whose people the contact and leader pickers list.
    pub filter_units: Vec<String>,
    /// The note saying so, when the people are filtered.
    pub filter_note: Option<String>,
    /// The leader options for the candidates the unit directory gave.
    pub leaders: Vec<SelectOption>,
}

pub open spec fn note_model(n: Option<String>) -> Option<Seq<char>> {
    match n {
        Some(s) => Some(s@),
        None => None,
    }
}

pub open spec fn candidate_names(cs: Seq<(String, String)>) -> Seq<Seq<char>> {
    cs.map_values(|c: (String, String)| c.0@)
}

fn append_strings(out: &mut Vec<String>, more: Vec<String>)
    ensures
        strings_model(final(out)@) == strings_model(old(out)@) + strings_model(more@),
{
    let mut more = more;
    let ghost a = out@;
    let ghost m = more@;
    out.append(&mut more);
    assert(strings_model(out@) =~= strings_model(a) + strings_model(m));
}

fn issuing_units_of(p: &TemplateProfile) -> (r: Vec<String>)
    ensures
        strings_model(r@) == issuing_units(*p),
{
    if p.joint_issuance_mode == JointIssuanceMode::Mode1 {
        split_units(p.joint_issuing_units.as_str())
    } else {
        split_units(p.issuing_unit.as_str())
    }
}

fn filter_units_of(d: &DraftInput) -> (r: Vec<String>)
    ensures
        strings_model(r@) == filter_units_model(*d),
{
    match d.kind {
        TemplateKind::OfficialLetter => if d.profile.joint_issuance_mode == JointIssuanceMode::Mode1 {
            split_units(d.profile.joint_responsible_units.as_str())
        } else {
            let v = vec![crate::text::string_of(&chars_of(d.profile.responsible_unit.as_str()))];
            assert(strings_model(v@) =~= seq![d.profile.responsible_unit@]);
            v
        },
        TemplateKind::WhitePaper | TemplateKind::RedHeadApproval => split_units(d.profile.signing_unit.as_str()),
        _ => {
            let v: Vec<String> = Vec::new();
            assert(strings_model(v@) =~= Seq::<Seq<char>>::empty());
            v
        },
    }
}

fn any_non_blank(units: &Vec<String>) -> (r: bool)
    ensures
        r == exists|k: int| 0 <= k < units.len() && !is_blank(#[trigger] strings_model(units@)[k]),
{
    let mut k: usize = 0;
    while k < units.len()
        invariant
            k <= units.len(),
            forall|j: int| 0 <= j < k ==> is_blank(#[trigger] strings_model(units@)[j]),
        decreases units.len() - k,
    {
        let v = chars_of(units[k].as_str());
        let (a, b) = trim_bounds(&v, 0, v.len());
        proof {
            assert(v@.subrange(0, v.len() as int) =~= v@);
            crate::text::lemma_trim_empty_iff_blank(v@);
            assert(strings_model(units@)[k as int] == units@[k as int]@);
        }
        if a < b {
            return true;
        }
        k += 1;
    }
    false
}

fn filter_note_of(d: &DraftInput, filter: &Vec<String>) -> (r: Option<String>)
    requires
        strings_model(filter@) == filter_units_model(*d),
    ensures
        note_model(r) == filter_note_model(*d),
{
    if !any_non_blank(filter) {
        return None;
    }
    match d.kind {
        TemplateKind::OfficialLetter => if d.profile.joint_issuance_mode == JointIssuanceMode::Mode1 {
            Some("联系人已按所选承办单位过滤。".to_string())
        } else {
            let v = chars_of(d.profile.responsible_unit.as_str());
            let (a, b) = trim_bounds(&v, 0, v.len());
            proof {
                assert(v@.subrange(0, v.len() as int) =~= v@);
            }
            let mut s = String::new();
            push_str(&mut s, "联系人已按承办单位“");
            let unit = crate::text::string_of_range(&v, a, b);
            push_str(&mut s, unit.as_str());
            push_str(&mut s, "”过滤。");
            Some(s)
        },
        TemplateKind::WhitePaper | TemplateKind::RedHeadApproval => {
            let units = split_units(d.profile.signing_unit.as_str());
            if units.len() == 0 {
                return None;
            }
            let mut s = String::new();
            push_str(&mut s, "呈报领导已按落款单位“");
            let joined = crate::text::join_strings(&units, "、");
            push_str(&mut s, joined.as_str());
            if d.kind == TemplateKind::WhitePaper {
                push_str(&mut s, "”及其上级领导过滤。");
            } else {
                push_str(&mut s, "”及其上级领导过滤；承办联系人在各承办条目内按单位过滤。");
            }
            Some(s)
        },
        _ => None,
    }
}

fn find_person(vocab: &Vec<VocabularyEntry>, name: &str) -> (r: Option<usize>)
    ensures
        match r {
            Some(i) => person_from(vocab@, name@, 0) == i as int && i < vocab.len(),
            None => person_from(vocab@, name@, 0) == -1,
        },
{
    let mut k: usize = 0;
    while k < vocab.len()
        invariant
            k <= vocab.len(),
            person_from(vocab@, name@, 0) == person_from(vocab@, name@, k as int),
        decreases vocab.len() - k,
    {
        if vocab[k].category == VocabularyCategory::Person {
            let c = chars_of(vocab[k].canonical.as_str());
            let (a, b) = trim_bounds(&c, 0, c.len());
            let t = crate::text::string_of_range(&c, a, b);
            proof {
                assert(c@.subrange(0, c.len() as int) =~= c@);
            }
            if crate::doc_import::str_eq(t.as_str(), name) {
                return Some(k);
            }
        }
        k += 1;
    }
    None
}

fn trimmed(s: &str) -> (r: String)
    ensures
        r@ == trim(s@),
{
    let v = chars_of(s);
    let (a, b) = trim_bounds(&v, 0, v.len());
    proof {
        assert(v@.subrange(0, v.len() as int) =~= v@);
    }
    crate::text::string_of_range(&v, a, b)
}

fn leader_option_of(vocab: &Vec<VocabularyEntry>, name: &str) -> (r: SelectOption)
    ensures
        r.model() == leader_option(vocab@, name@),
{
    let found = find_person(vocab, name);
    let (position, code) = match found {
        Some(i) => (trimmed(vocab[i].position.as_str()), trimmed(vocab[i].code.as_str())),
        None => (String::new(), String::new()),
    };
    let mut full = String::new();
    push_str(&mut full, name);
    if chars_of(position.as_str()).len() > 0 {
        full.push(' ');
        push_str(&mut full, position.as_str());
    }
    let mut label = String::new();
    if chars_of(code.as_str()).len() > 0 {
        push_str(&mut label, code.as_str());
        label.push(' ');
    }
    push_str(&mut label, full.as_str());
    let r = SelectOption {
        value: crate::text::string_of(&chars_of(name)),
        label,
        full,
        parent: String::new(),
        depth: 0,
    };
    proof {
        let m = leader_option(vocab@, name@);
        let i = person_from(vocab@, name@, 0);
        assert(position@ == (if i >= 0 { trim(vocab@[i].position@) } else { Seq::<char>::empty() }));
        assert(code@ == (if i >= 0 { trim(vocab@[i].code@) } else { Seq::<char>::empty() }));
        assert(r.full@ =~= m.full);
        assert(r.label@ =~= m.label);
        assert(r.value@ == m.value);
        assert(r.parent@ =~= m.parent);
    }
    r
}

/// What the pickers of the form offer for `draft`. A unit picked as issuer,
/// recipient or copy is blocked for the other two; the contact and leader
/// pickers list the people of the handling or signing units, with a note
/// saying so; `candidates` are the `(name, phone)` pairs the unit directory
/// gives for those units, and each becomes a leader option labelled from
/// the vocabulary.
pub fn form_choices(draft: &DraftInput, vocabulary: &Vec<VocabularyEntry>, candidates: &Vec<(String, String)>) -> (r: FormChoices)
    ensures
        strings_model(r.blocked_for_recipient@) == units_of(draft.profile.copies_to@) + issuing_units(draft.profile),
        strings_model(r.blocked_for_copies@) == units_of(draft.profile.recipient@) + issuing_units(draft.profile),
        strings_model(r.filter_units@) == filter_units_model(*draft),
        note_model(r.filter_note) == filter_note_model(*draft),
        options_model(r.leaders@) == leader_options_model(vocabulary@, candidate_names(candidates@)),
{
    let mut blocked_for_recipient = split_units(draft.profile.copies_to.as_str());
    append_strings(&mut blocked_for_recipient, issuing_units_of(&draft.profile));
    let mut blocked_for_copies = split_units(draft.profile.recipient.as_str());
    append_strings(&mut blocked_for_copies, issuing_units_of(&draft.profile));
    let filter_units = filter_units_of(draft);
    let filter_note = filter_note_of(draft, &filter_units);
    let mut leaders: Vec<SelectOption> = Vec::new();
    let mut k: usize = 0;
    while k < candidates.len()
        invariant
            k <= candidates.len(),
            options_model(leaders@) == leader_options_model(vocabulary@, candidate_names(candidates@.take(k as int))),
        decreases candidates.len() - k,
    {
        let option = leader_option_of(vocabulary, candidates[k].0.as_str());
        let ghost before = leaders@;
        leaders.push(option);
        proof {
            assert(candidates@.take(k + 1) =~= candidates@.take(k as int).push(candidates@[k as int]));
            assert(options_model(leaders@) =~= options_model(before).push(option.model()));
            assert(leader_options_model(vocabulary@, candidate_names(candidates@.take(k + 1))) =~= leader_options_model(
                vocabulary@,
                candidate_names(candidates@.take(k as int)),
            ).push(leader_option(vocabulary@, candidates@[k as int].0@)));
        }
        k += 1;
    }
    proof {
        assert(candidates@.take(candidates.len() as int) =~= candidates@);
    }
    FormChoices { blocked_for_recipient, blocked_for_copies, filter_units, filter_note, leaders }
}

/// Once an issuing unit is picked, its department code goes into a profile
/// whose code is still blank; `code` is the code bound to that unit, empty
/// when none is.
pub fn fill_department_code(profile: &mut TemplateProfile, code: &str)
    ensures
        final(profile).department_code@ == if is_blank(old(profile).department_code@) && code@.len() > 0 {
            code@
        } else {
            old(profile).department_code@
        },
        *final(profile) == (TemplateProfile { department_code: final(profile).department_code, ..*old(profile) }),
{
    let current = chars_of(profile.department_code.as_str());
    let (a, b) = trim_bounds(&current, 0, current.len());
    proof {
        assert(current@.subrange(0, current.len() as int) =~= current@);
        crate::text::lemma_trim_empty_iff_blank(current@);
    }
    if a == b && chars_of(code).len() > 0 {
        profile.department_code = crate::text::string_of(&chars_of(code));
    }
}

// ---------------------------------------------------------------------------
// Handling units of a joint document, one row each.

/// Old drafts may hold the handling units without their contact rows: the
/// rows are padded from the unit list, the existing rows kept as they are
/// (old data pairs units and contacts by position, so the counts need not
/// agree), one row with an empty name and phone for each further unit.
pub fn padded_joint_contacts(units: &Vec<String>, contacts: Vec<JointContact>) -> (r: Vec<JointContact>)
    ensures
        r.len() == if units.len() > contacts.len() { units.len() } else { contacts.len() },
        forall|i: int| 0 <= i < contacts.len() ==> #[trigger] r@[i] == contacts@[i],
        forall|i: int|
            contacts.len() <= i < units.len() ==> (#[trigger] r@[i]).unit@ == units@[i]@ && r@[i].name@.len() == 0
                && r@[i].phone@.len() == 0,
{
    let mut out = contacts;
    let ghost old_rows = out@;
    let n0 = out.len();
    let mut k = n0;
    while k < units.len()
        invariant
            n0 == old_rows.len(),
            n0 <= k,
            out.len() == k,
            k == n0 || k <= units.len(),
            forall|i: int| 0 <= i < old_rows.len() ==> #[trigger] out@[i] == old_rows[i],
            forall|i: int|
                old_rows.len() <= i < out.len() ==> (#[trigger] out@[i]).unit@ == units@[i]@ && out@[i].name@.len() == 0
                    && out@[i].phone@.len() == 0,
        decreases units.len() - k,
    {
        let row = JointContact {
            unit: crate::text::string_of(&chars_of(units[k].as_str())),
            name: String::new(),
            phone: String::new(),
        };
        out.push(row);
        k += 1;
    }
    out
}

/// An edit of the rows of handling units.
#[derive(Debug, Clone, Copy, PartialEq, Eq, Structural)]
pub enum JointRowEdit {
    /// Remove the row at this index; offered only while there are two rows
    /// or more.
    Remove(usize),
    /// Add an empty row; refused once `max_rows` rows are there.
    Add,
}

/// Whether the rows are at their limit: approval forms have room for only
/// so many handling units on the first page.
pub open spec fn rows_full(len: nat, max_rows: Option<usize>) -> bool {
    match max_rows {
        Some(max) => len >= max,
        None => false,
    }
}

/// Apply a row edit; returns whether the rows changed.
pub fn edit_joint_rows(rows: &mut Vec<JointContact>, edit: JointRowEdit, max_rows: Option<usize>) -> (changed: bool)
    ensures
        match edit {
            JointRowEdit::Remove(i) => if old(rows).len() > 1 && i < old(rows).len() {
                changed && final(rows)@ == old(rows)@.remove(i as int)
            } else {
                !changed && final(rows)@ == old(rows)@
            },
            JointRowEdit::Add => if rows_full(old(rows).len() as nat, max_rows) {
                !changed && final(rows)@ == old(rows)@
            } else {
                changed && final(rows).len() == old(rows).len() + 1 && final(rows)@.drop_last() == old(rows)@
                    && final(rows)@.last().unit@.len() == 0 && final(rows)@.last().name@.len() == 0
                    && final(rows)@.last().phone@.len() == 0
            },
        },
{
    match edit {
        JointRowEdit::Remove(i) => {
            if rows.len() > 1 && i < rows.len() {
                rows.remove(i);
                true
            } else {
                false
            }
        },
        JointRowEdit::Add => {
            let full = match max_rows {
                Some(max) => rows.len() >= max,
                None => false,
            };
            if full {
                false
            } else {
                let ghost before = rows@;
                rows.push(JointContact { unit: String::new(), name: String::new(), phone: String::new() });
                assert(rows@.drop_last() =~= before);
                true
            }
        },
    }
}

// ---------------------------------------------------------------------------
// Required items of the form.

/// One required item: where it stands, its field, whether it is filled, and
/// what the form says when it is not.
pub struct RequirementModel {
    pub section: FormSection,
    pub id: Seq<char>,
    pub filled: bool,
    pub message: Seq<char>,
}

pub open spec fn req(section: FormSection, id: Seq<char>, filled: bool, message: Seq<char>) -> RequirementModel {
    RequirementModel { section, id, filled, message }
}

/// Whether a text is filled: more than whitespace.
pub open spec fn filled_text(s: Seq<char>) -> bool {
    !is_blank(s)
}

/// Whether some handling-unit row has its unit, contact and phone.
pub open spec fn has_joint_entry(cs: Seq<JointContact>) -> bool {
    exists|k: int|
        0 <= k < cs.len() && filled_text((#[trigger] cs[k]).unit@) && filled_text(cs[k].name@) && filled_text(cs[k].phone@)
}

/// The required items of a draft, in the order the form checks them; they
/// follow the element checks of the review, so the form never calls
/// complete what the review then reports missing.
pub open spec fn requirements(d: DraftInput) -> Seq<RequirementModel> {
    let p = d.profile;
    let joint = p.joint_issuance_mode == JointIssuanceMode::Mode1;
    seq![req(FormSection::Header, "security_level"@, filled_text(p.security_level@), "密级是所有文稿类型的必填项"@)]
        + match d.kind {
        TemplateKind::OfficialLetter => seq![
            req(
                FormSection::Header,
                "issuing_unit"@,
                filled_text(if joint { p.joint_issuing_units@ } else { p.issuing_unit@ }),
                "公函必须有发文单位"@,
            ),
        ] + (if joint {
            seq![
                req(
                    FormSection::Header,
                    "joint_issuing_units_count"@,
                    units_of(p.joint_issuing_units@).len() >= 2,
                    "联合发文模式1至少需要两个发文单位"@,
                ),
                req(
                    FormSection::Header,
                    "main_issuing_unit"@,
                    units_of(p.joint_issuing_units@).contains(trim(p.main_issuing_unit@)),
                    "须从发文单位中指定一个主发文单位"@,
                ),
            ]
        } else {
            Seq::<RequirementModel>::empty()
        }) + seq![req(FormSection::Body, "recipient"@, filled_text(p.recipient@), "公函必须有主送单位"@)],
        TemplateKind::PhoneNotice => seq![
            req(FormSection::Header, "phone_notice_issuing_unit"@, filled_text(p.issuing_unit@), "电话通知必须有发文单位"@),
            req(FormSection::Body, "phone_notice_recipient"@, filled_text(p.recipient@), "电话通知必须有主送单位"@),
        ],
        TemplateKind::PlainDocument => Seq::<RequirementModel>::empty(),
        TemplateKind::MeetingAgenda => seq![
            req(FormSection::Body, "meeting_time"@, filled_text(d.meeting_time@), "留空则由模型从素材提取，生成后需人工核对"@),
            req(
                FormSection::Body,
                "meeting_location"@,
                filled_text(p.meeting_location@),
                "留空则由模型从素材提取，生成后需人工核对"@,
            ),
            req(FormSection::Body, "attendees"@, filled_text(d.attendees@), "留空则由模型从素材归纳，生成后需人工核对"@),
        ],
        TemplateKind::WhitePaper => seq![
            req(FormSection::Body, "reporting_leaders"@, filled_text(p.reporting_leaders@), "白头件必须有呈报领导"@),
            req(FormSection::Record, "signing_unit"@, filled_text(p.signing_unit@), "白头件必须有落款单位"@),
        ],
        TemplateKind::RedHeadApproval => seq![
            req(
                FormSection::Header,
                "red_approval_issuing_unit"@,
                filled_text(p.issuing_unit@),
                "红头呈批件必须有发文单位"@,
            ),
            req(
                FormSection::Body,
                "red_approval_reporting_leaders"@,
                filled_text(p.reporting_leaders@),
                "红头呈批件必须有呈报领导"@,
            ),
            req(
                FormSection::Record,
                "red_approval_signing_unit"@,
                filled_text(p.signing_unit@),
                "红头呈批件必须有落款单位"@,
            ),
            req(
                FormSection::Record,
                "red_approval_responsible"@,
                has_joint_entry(p.joint_contacts@),
                "至少需要一条承办单位、联系人和电话"@,
            ),
        ],
    }
}

/// Number of the required items of `rs` in `section`.
pub open spec fn required_in(rs: Seq<RequirementModel>, section: FormSection) -> nat
    decreases rs.len(),
{
    if rs.len() == 0 {
        0
    } else {
        required_in(rs.drop_last(), section) + if rs.last().section == section { 1nat } else { 0nat }
    }
}

/// Number of the filled items of `rs` in `section`.
pub open spec fn filled_in(rs: Seq<RequirementModel>, section: FormSection) -> nat
    decreases rs.len(),
{
    if rs.len() == 0 {
        0
    } else {
        filled_in(rs.drop_last(), section) + if rs.last().section == section && rs.last().filled { 1nat } else { 0nat }
    }
}

/// The `(field, message)` of every item of `rs` not filled, in order.
pub open spec fn unfilled(rs: Seq<RequirementModel>) -> Seq<(Seq<char>, Seq<char>)>
    decreases rs.len(),
{
    if rs.len() == 0 {
        seq![]
    } else if rs.last().filled {
        unfilled(rs.drop_last())
    } else {
        unfilled(rs.drop_last()).push((rs.last().id, rs.last().message))
    }
}

pub open spec fn section_at(k: int) -> FormSection {
    if k == 0 {
        FormSection::Header
    } else if k == 1 {
        FormSection::Body
    } else {
        FormSection::Record
    }
}

/// One required item, as the form lists it.
pub struct Requirement {
    pub section: FormSection,
    pub id: &'static str,
    pub filled: bool,
    pub message: &'static str,
}

impl Requirement {
    pub open spec fn model(&self) -> RequirementModel {
        RequirementModel { section: self.section, id: self.id@, filled: self.filled, message: self.message@ }
    }
}

/// The progress of the three parts of the form and the message of every
/// required item still empty, by field.
pub struct FormCheck {
    pub progress: Vec<SectionProgress>,
    pub errors: Vec<(&'static str, String)>,
}

pub open spec fn errors_model(v: Seq<(&'static str, String)>) -> Seq<(Seq<char>, Seq<char>)> {
    v.map_values(|e: (&'static str, String)| (e.0@, e.1@))
}

impl FormCheck {
    /// Nothing checked yet.
    pub fn new() -> (r: FormCheck)
        ensures
            r.progress.len() == 3,
            forall|k: int| 0 <= k < 3 ==> r.progress@[k].done == 0 && r.progress@[k].total == 0,
            r.errors.len() == 0,
    {
        FormCheck {
            progress: vec![
                SectionProgress { done: 0, total: 0 },
                SectionProgress { done: 0, total: 0 },
                SectionProgress { done: 0, total: 0 },
            ],
            errors: Vec::new(),
        }
    }

    /// Count one required item; an empty one leaves its message on its
    /// field.
    pub fn require(&mut self, section: FormSection, id: &'static str, filled: bool, message: &str)
        requires
            old(self).progress.len() == 3,
            old(self).progress@[section.index_spec()].done <= old(self).progress@[section.index_spec()].total,
            old(self).progress@[section.index_spec()].total < usize::MAX,
        ensures
            final(self).progress@ == old(self).progress@.update(
                section.index_spec(),
                SectionProgress {
                    done: (old(self).progress@[section.index_spec()].done + if filled { 1usize } else { 0usize }) as usize,
                    total: (old(self).progress@[section.index_spec()].total + 1) as usize,
                },
            ),
            errors_model(final(self).errors@) == if filled {
                errors_model(old(self).errors@)
            } else {
                errors_model(old(self).errors@).push((id@, message@))
            },
    {
        let i = section.index();
        let p = self.progress[i];
        let next = SectionProgress { done: if filled { p.done + 1 } else { p.done }, total: p.total + 1 };
        self.progress.set(i, next);
        if !filled {
            let ghost before = self.errors@;
            self.errors.push((id, crate::text::string_of(&chars_of(message))));
            assert(errors_model(self.errors@) =~= errors_model(before).push((id@, message@)));
        }
    }

    /// The message left on field `id`, if any.
    pub fn get(&self, id: &str) -> (r: Option<&String>)
        ensures
            match r {
                Some(m) => exists|k: int| 0 <= k < self.errors.len() && self.errors@[k].0@ == id@ && self.errors@[k].1 == *m,
                None => forall|k: int| 0 <= k < self.errors.len() ==> self.errors@[k].0@ != id@,
            },
    {
        let mut k: usize = 0;
        while k < self.errors.len()
            invariant
                k <= self.errors.len(),
                forall|j: int| 0 <= j < k ==> self.errors@[j].0@ != id@,
            decreases self.errors.len() - k,
        {
            if crate::doc_import::str_eq(self.errors[k].0, id) {
                return Some(&self.errors[k].1);
            }
            k += 1;
        }
        None
    }
}

fn is_filled(s: &str) -> (r: bool)
    ensures
        r == filled_text(s@),
{
    let v = chars_of(s);
    let (a, b) = trim_bounds(&v, 0, v.len());
    proof {
        assert(v@.subrange(0, v.len() as int) =~= v@);
        crate::text::lemma_trim_empty_iff_blank(v@);
    }
    a < b
}

fn contains_unit(units: &Vec<String>, t: &str) -> (r: bool)
    ensures
        r == strings_model(units@).contains(t@),
{
    let mut k: usize = 0;
    while k < units.len()
        invariant
            k <= units.len(),
            forall|j: int| 0 <= j < k ==> strings_model(units@)[j] != t@,
        decreases units.len() - k,
    {
        assert(strings_model(units@)[k as int] == units@[k as int]@);
        if crate::doc_import::str_eq(units[k].as_str(), t) {
            return true;
        }
        k += 1;
    }
    false
}

fn any_joint_entry(cs: &Vec<JointContact>) -> (r: bool)
    ensures
        r == has_joint_entry(cs@),
{
    let mut k: usize = 0;
    while k < cs.len()
        invariant
            k <= cs.len(),
            forall|j: int|
                0 <= j < k ==> !(filled_text((#[trigger] cs@[j]).unit@) && filled_text(cs@[j].name@) && filled_text(cs@[j].phone@)),
        decreases cs.len() - k,
    {
        if is_filled(cs[k].unit.as_str()) && is_filled(cs[k].name.as_str()) && is_filled(cs[k].phone.as_str()) {
            return true;
        }
        k += 1;
    }
    false
}

pub open spec fn requirements_model(v: Seq<Requirement>) -> Seq<RequirementModel> {
    v.map_values(|r: Requirement| r.model())
}

fn requirement(section: FormSection, id: &'static str, filled: bool, message: &'static str) -> (r: Requirement)
    ensures
        r.model() == req(section, id@, filled, message@),
{
    Requirement { section, id, filled, message }
}

/// The required items of a draft, in the order the form checks them.
pub fn requirement_list(draft: &DraftInput) -> (r: Vec<Requirement>)
    ensures
        requirements_model(r@) == requirements(*draft),
{
    let p = &draft.profile;
    let joint = p.joint_issuance_mode == JointIssuanceMode::Mode1;
    let mut out: Vec<Requirement> = Vec::new();
    out.push(requirement(FormSection::Header, "security_level", is_filled(p.security_level.as_str()), "密级是所有文稿类型的必填项"));
    match draft.kind {
        TemplateKind::OfficialLetter => {
            let issuing = if joint { is_filled(p.joint_issuing_units.as_str()) } else { is_filled(p.issuing_unit.as_str()) };
            out.push(requirement(FormSection::Header, "issuing_unit", issuing, "公函必须有发文单位"));
            if joint {
                let units = split_units(p.joint_issuing_units.as_str());
                let main = trimmed(p.main_issuing_unit.as_str());
                out.push(requirement(FormSection::Header, "joint_issuing_units_count", units.len() >= 2, "联合发文模式1至少需要两个发文单位"));
                out.push(requirement(FormSection::Header, "main_issuing_unit", contains_unit(&units, main.as_str()), "须从发文单位中指定一个主发文单位"));
            }
            out.push(requirement(FormSection::Body, "recipient", is_filled(p.recipient.as_str()), "公函必须有主送单位"));
        },
        TemplateKind::PhoneNotice => {
            out.push(requirement(FormSection::Header, "phone_notice_issuing_unit", is_filled(p.issuing_unit.as_str()), "电话通知必须有发文单位"));
            out.push(requirement(FormSection::Body, "phone_notice_recipient", is_filled(p.recipient.as_str()), "电话通知必须有主送单位"));
        },
        TemplateKind::PlainDocument => {},
        TemplateKind::MeetingAgenda => {
            out.push(requirement(FormSection::Body, "meeting_time", is_filled(draft.meeting_time.as_str()), "留空则由模型从素材提取，生成后需人工核对"));
            out.push(requirement(FormSection::Body, "meeting_location", is_filled(p.meeting_location.as_str()), "留空则由模型从素材提取，生成后需人工核对"));
            out.push(requirement(FormSection::Body, "attendees", is_filled(draft.attendees.as_str()), "留空则由模型从素材归纳，生成后需人工核对"));
        },
        TemplateKind::WhitePaper => {
            out.push(requirement(FormSection::Body, "reporting_leaders", is_filled(p.reporting_leaders.as_str()), "白头件必须有呈报领导"));
            out.push(requirement(FormSection::Record, "signing_unit", is_filled(p.signing_unit.as_str()), "白头件必须有落款单位"));
        },
        TemplateKind::RedHeadApproval => {
            out.push(requirement(FormSection::Header, "red_approval_issuing_unit", is_filled(p.issuing_unit.as_str()), "红头呈批件必须有发文单位"));
            out.push(requirement(FormSection::Body, "red_approval_reporting_leaders", is_filled(p.reporting_leaders.as_str()), "红头呈批件必须有呈报领导"));
            out.push(requirement(FormSection::Record, "red_approval_signing_unit", is_filled(p.signing_unit.as_str()), "红头呈批件必须有落款单位"));
            out.push(requirement(FormSection::Record, "red_approval_responsible", any_joint_entry(&p.joint_contacts), "至少需要一条承办单位、联系人和电话"));
        },
    }
    assert(requirements_model(out@) =~= requirements(*draft));
    out
}

/// Count the required items of the draft's kind: the progress of each part
/// of the form, and a message on each required field still empty.
pub fn check_form(draft: &DraftInput) -> (r: FormCheck)
    ensures
        r.progress.len() == 3,
        forall|k: int|
            0 <= k < 3 ==> (#[trigger] r.progress@[k]).total == required_in(requirements(*draft), section_at(k))
                && r.progress@[k].done == filled_in(requirements(*draft), section_at(k)),
        errors_model(r.errors@) == unfilled(requirements(*draft)),
{
    let reqs = requirement_list(draft);
    let ghost rs = requirements(*draft);
    let mut check = FormCheck::new();
    let mut k: usize = 0;
    proof {
        assert(rs.take(0) =~= Seq::<RequirementModel>::empty());
        assert(errors_model(check.errors@) =~= Seq::<(Seq<char>, Seq<char>)>::empty());
    }
    while k < reqs.len()
        invariant
            k <= reqs.len(),
            rs == requirements_model(reqs@),
            check.progress.len() == 3,
            forall|j: int|
                0 <= j < 3 ==> (#[trigger] check.progress@[j]).total == required_in(rs.take(k as int), section_at(j))
                    && check.progress@[j].done == filled_in(rs.take(k as int), section_at(j)),
            errors_model(check.errors@) == unfilled(rs.take(k as int)),
            forall|j: int| 0 <= j < 3 ==> (#[trigger] check.progress@[j]).total <= k,
            forall|j: int| 0 <= j < 3 ==> (#[trigger] check.progress@[j]).done <= check.progress@[j].total,
        decreases reqs.len() - k,
    {
        let r = &reqs[k];
        proof {
            assert(rs.take(k + 1).drop_last() =~= rs.take(k as int));
            assert(rs.take(k + 1).last() == reqs@[k as int].model());
            assert(section_at(r.section.index_spec()) == r.section);
        }
        check.require(r.section, r.id, r.filled, r.message);
        k += 1;
    }
    proof {
        assert(rs.take(reqs.len() as int) =~= rs);
    }
    check
}

/// The unfilled items of `rs`, counted by part: each part's required items
/// less its filled ones.
pub open spec fn missing_total(rs: Seq<RequirementModel>) -> int {
    (required_in(rs, section_at(0)) - filled_in(rs, section_at(0))) + (required_in(rs, section_at(1)) - filled_in(
        rs,
        section_at(1),
    )) + (required_in(rs, section_at(2)) - filled_in(rs, section_at(2)))
}

proof fn lemma_unfilled_count(rs: Seq<RequirementModel>)
    ensures
        unfilled(rs).len() == missing_total(rs),
        forall|k: int| 0 <= k < 3 ==> filled_in(rs, section_at(k)) <= required_in(rs, section_at(k)),
    decreases rs.len(),
{
    if rs.len() > 0 {
        lemma_unfilled_count(rs.drop_last());
        let l = rs.last();
        assert(l.section == section_at(0) || l.section == section_at(1) || l.section == section_at(2));
    }
}

proof fn lemma_unfilled_members(rs: Seq<RequirementModel>)
    ensures
        forall|i: int|
            0 <= i < unfilled(rs).len() ==> exists|j: int|
                0 <= j < rs.len() && !rs[j].filled && #[trigger] unfilled(rs)[i] == (rs[j].id, rs[j].message),
        forall|j: int|
            0 <= j < rs.len() && !(#[trigger] rs[j]).filled ==> exists|i: int|
                0 <= i < unfilled(rs).len() && unfilled(rs)[i] == (rs[j].id, rs[j].message),
    decreases rs.len(),
{
    if rs.len() > 0 {
        let d = rs.drop_last();
        lemma_unfilled_members(d);
        let u = unfilled(rs);
        let ud = unfilled(d);
        assert forall|i: int| 0 <= i < u.len() implies exists|j: int|
            0 <= j < rs.len() && !rs[j].filled && #[trigger] u[i] == (rs[j].id, rs[j].message) by {
            if i < ud.len() {
                assert(u[i] == ud[i]);
                let j = choose|j: int| 0 <= j < d.len() && !d[j].filled && ud[i] == (d[j].id, d[j].message);
                assert(d[j] == rs[j]);
            } else {
                assert(rs[rs.len() - 1] == rs.last());
            }
        }
        assert forall|j: int| 0 <= j < rs.len() && !(#[trigger] rs[j]).filled implies exists|i: int|
            0 <= i < u.len() && u[i] == (rs[j].id, rs[j].message) by {
            if j < d.len() {
                assert(d[j] == rs[j]);
                let i = choose|i: int| 0 <= i < ud.len() && ud[i] == (d[j].id, d[j].message);
                assert(u[i] == ud[i]);
            } else {
                assert(u[u.len() - 1] == (rs.last().id, rs.last().message));
            }
        }
    }
}

/// Only the first required item is the secrecy level's.
#[verifier::spinoff_prover]
#[verifier::rlimit(40)]
proof fn lemma_other_ids(d: DraftInput)
    ensures
        forall|j: int| 1 <= j < requirements(d).len() ==> (#[trigger] requirements(d)[j]).id.len() != 14,
{
    let rs = requirements(d);
    let rest = rs.drop_first();
    match d.kind {
        TemplateKind::OfficialLetter => {
            reveal_strlit("issuing_unit");
            reveal_strlit("joint_issuing_units_count");
            reveal_strlit("main_issuing_unit");
            reveal_strlit("recipient");
        },
        TemplateKind::PhoneNotice => {
            reveal_strlit("phone_notice_issuing_unit");
            reveal_strlit("phone_notice_recipient");
        },
        TemplateKind::PlainDocument => {},
        TemplateKind::MeetingAgenda => {
            reveal_strlit("meeting_time");
            reveal_strlit("meeting_location");
            reveal_strlit("attendees");
        },
        TemplateKind::WhitePaper => {
            reveal_strlit("reporting_leaders");
            reveal_strlit("signing_unit");
        },
        TemplateKind::RedHeadApproval => {
            reveal_strlit("red_approval_issuing_unit");
            reveal_strlit("red_approval_reporting_leaders");
            reveal_strlit("red_approval_signing_unit");
            reveal_strlit("red_approval_responsible");
        },
    }
    assert forall|j: int| 1 <= j < rs.len() implies (#[trigger] rs[j]).id.len() != 14 by {
        assert(rs[j] == rest[j - 1]);
    }
}

/// The form and its badges agree: there are as many messages as the parts
/// count missing items; the secrecy level has a message exactly when it is
/// blank; and a plain document requires nothing else.
pub proof fn lemma_check_form_agrees(d: DraftInput)
    ensures
        unfilled(requirements(d)).len() == missing_total(requirements(d)),
        (exists|i: int|
            0 <= i < unfilled(requirements(d)).len() && (#[trigger] unfilled(requirements(d))[i]).0 == "security_level"@)
            <==> is_blank(d.profile.security_level@),
        d.kind == TemplateKind::PlainDocument ==> forall|i: int|
            0 <= i < unfilled(requirements(d)).len() ==> (#[trigger] unfilled(requirements(d))[i]).0 == "security_level"@,
{
    let rs = requirements(d);
    lemma_unfilled_count(rs);
    lemma_unfilled_members(rs);
    lemma_other_ids(d);
    reveal_strlit("security_level");
    assert(rs[0].id == "security_level"@);
    assert(rs[0].filled == !is_blank(d.profile.security_level@));
    assert("security_level"@.len() == 14);
    if is_blank(d.profile.security_level@) {
        assert(!rs[0].filled);
    }
    if exists|i: int| 0 <= i < unfilled(rs).len() && (#[trigger] unfilled(rs)[i]).0 == "security_level"@ {
        let i = choose|i: int| 0 <= i < unfilled(rs).len() && (#[trigger] unfilled(rs)[i]).0 == "security_level"@;
        let j = choose|j: int| 0 <= j < rs.len() && !rs[j].filled && unfilled(rs)[i] == (rs[j].id, rs[j].message);
        if j >= 1 {
            assert(rs[j].id.len() != 14);
        }
    }
    if d.kind == TemplateKind::PlainDocument {
        assert(rs.len() == 1);
        assert forall|i: int| 0 <= i < unfilled(rs).len() implies (#[trigger] unfilled(rs)[i]).0 == "security_level"@ by {
            let j = choose|j: int| 0 <= j < rs.len() && !rs[j].filled && unfilled(rs)[i] == (rs[j].id, rs[j].message);
        }
    }
}

/// One if `b` holds, else zero.
pub open spec fn count_if(b: bool) -> nat {
    if b { 1 } else { 0 }
}

/// The counts and the messages after one more required item.
proof fn lemma_requirements_push(rs: Seq<RequirementModel>, r: RequirementModel)
    ensures
        forall|s: FormSection| #[trigger] required_in(rs.push(r), s) == required_in(rs, s) + count_if(r.section == s),
        forall|s: FormSection| #[trigger] filled_in(rs.push(r), s) == filled_in(rs, s) + count_if(r.section == s && r.filled),
{
    assert(rs.push(r).drop_last() =~= rs);
}

/// A letter from one unit requires the secrecy level and the issuing unit in
/// the header and the recipient in the body, and reports each one left blank.
#[verifier::spinoff_prover]
#[verifier::rlimit(40)]
pub proof fn lemma_official_letter_form(d: DraftInput)
    requires
        d.kind == TemplateKind::OfficialLetter,
        d.profile.joint_issuance_mode != JointIssuanceMode::Mode1,
    ensures
        ({
            let rs = requirements(d);
            let p = d.profile;
            &&& required_in(rs, FormSection::Header) == 2
            &&& filled_in(rs, FormSection::Header) == count_if(!is_blank(p.security_level@)) + count_if(!is_blank(p.issuing_unit@))
            &&& required_in(rs, FormSection::Body) == 1
            &&& filled_in(rs, FormSection::Body) == count_if(!is_blank(p.recipient@))
            &&& required_in(rs, FormSection::Record) == 0
            &&& filled_in(rs, FormSection::Record) == 0
            &&& is_blank(p.security_level@) ==> unfilled(rs).contains(("security_level"@, "密级是所有文稿类型的必填项"@))
            &&& is_blank(p.issuing_unit@) ==> unfilled(rs).contains(("issuing_unit"@, "公函必须有发文单位"@))
            &&& is_blank(p.recipient@) ==> unfilled(rs).contains(("recipient"@, "公函必须有主送单位"@))
        }),
{
    let rs = requirements(d);
    let p = d.profile;
    let s0 = Seq::<RequirementModel>::empty();
    let r0 = req(FormSection::Header, "security_level"@, !is_blank(p.security_level@), "密级是所有文稿类型的必填项"@);
    lemma_requirements_push(s0, r0);
    let s1 = s0.push(r0);
    let r1 = req(FormSection::Header, "issuing_unit"@, !is_blank(p.issuing_unit@), "公函必须有发文单位"@);
    lemma_requirements_push(s1, r1);
    let s2 = s1.push(r1);
    let r2 = req(FormSection::Body, "recipient"@, !is_blank(p.recipient@), "公函必须有主送单位"@);
    lemma_requirements_push(s2, r2);
    let s3 = s2.push(r2);
    assert(rs =~= s3);
    lemma_unfilled_members(rs);
    assert(rs[0] == r0);
    if !r0.filled {
        let k = choose|k: int| 0 <= k < unfilled(rs).len() && unfilled(rs)[k] == (rs[0].id, rs[0].message);
        assert(unfilled(rs)[k] == (r0.id, r0.message));
    }
    assert(rs[1] == r1);
    if !r1.filled {
        let k = choose|k: int| 0 <= k < unfilled(rs).len() && unfilled(rs)[k] == (rs[1].id, rs[1].message);
        assert(unfilled(rs)[k] == (r1.id, r1.message));
    }
    assert(rs[2] == r2);
    if !r2.filled {
        let k = choose|k: int| 0 <= k < unfilled(rs).len() && unfilled(rs)[k] == (rs[2].id, rs[2].message);
        assert(unfilled(rs)[k] == (r2.id, r2.message));
    }
}

/// A joint letter requires in the header the secrecy level, the joint issuing
/// units, at least two of them, and a main unit among them, and in the body
/// the recipient; it reports each one missing.
#[verifier::spinoff_prover]
#[verifier::rlimit(40)]
pub proof fn lemma_joint_official_letter_form(d: DraftInput)
    requires
        d.kind == TemplateKind::OfficialLetter,
        d.profile.joint_issuance_mode == JointIssuanceMode::Mode1,
    ensures
        ({
            let rs = requirements(d);
            let p = d.profile;
            &&& required_in(rs, FormSection::Header) == 4
            &&& filled_in(rs, FormSection::Header) == count_if(!is_blank(p.security_level@)) + count_if(!is_blank(p.joint_issuing_units@)) + count_if(units_of(p.joint_issuing_units@).len() >= 2) + count_if(units_of(p.joint_issuing_units@).contains(trim(p.main_issuing_unit@)))
            &&& required_in(rs, FormSection::Body) == 1
            &&& filled_in(rs, FormSection::Body) == count_if(!is_blank(p.recipient@))
            &&& required_in(rs, FormSection::Record) == 0
            &&& filled_in(rs, FormSection::Record) == 0
            &&& is_blank(p.security_level@) ==> unfilled(rs).contains(("security_level"@, "密级是所有文稿类型的必填项"@))
            &&& is_blank(p.joint_issuing_units@) ==> unfilled(rs).contains(("issuing_unit"@, "公函必须有发文单位"@))
            &&& units_of(p.joint_issuing_units@).len() < 2 ==> unfilled(rs).contains(("joint_issuing_units_count"@, "联合发文模式1至少需要两个发文单位"@))
            &&& !units_of(p.joint_issuing_units@).contains(trim(p.main_issuing_unit@)) ==> unfilled(rs).contains(("main_issuing_unit"@, "须从发文单位中指定一个主发文单位"@))
            &&& is_blank(p.recipient@) ==> unfilled(rs).contains(("recipient"@, "公函必须有主送单位"@))
        }),
{
    let rs = requirements(d);
    let p = d.profile;
    let s0 = Seq::<RequirementModel>::empty();
    let r0 = req(FormSection::Header, "security_level"@, !is_blank(p.security_level@), "密级是所有文稿类型的必填项"@);
    lemma_requirements_push(s0, r0);
    let s1 = s0.push(r0);
    let r1 = req(FormSection::Header, "issuing_unit"@, !is_blank(p.joint_issuing_units@), "公函必须有发文单位"@);
    lemma_requirements_push(s1, r1);
    let s2 = s1.push(r1);
    let r2 = req(FormSection::Header, "joint_issuing_units_count"@, units_of(p.joint_issuing_units@).len() >= 2, "联合发文模式1至少需要两个发文单位"@);
    lemma_requirements_push(s2, r2);
    let s3 = s2.push(r2);
    let r3 = req(FormSection::Header, "main_issuing_unit"@, units_of(p.joint_issuing_units@).contains(trim(p.main_issuing_unit@)), "须从发文单位中指定一个主发文单位"@);
    lemma_requirements_push(s3, r3);
    let s4 = s3.push(r3);
    let r4 = req(FormSection::Body, "recipient"@, !is_blank(p.recipient@), "公函必须有主送单位"@);
    lemma_requirements_push(s4, r4);
    let s5 = s4.push(r4);
    assert(rs =~= s5);
    lemma_unfilled_members(rs);
    assert(rs[0] == r0);
    if !r0.filled {
        let k = choose|k: int| 0 <= k < unfilled(rs).len() && unfilled(rs)[k] == (rs[0].id, rs[0].message);
        assert(unfilled(rs)[k] == (r0.id, r0.message));
    }
    assert(rs[1] == r1);
    if !r1.filled {
        let k = choose|k: int| 0 <= k < unfilled(rs).len() && unfilled(rs)[k] == (rs[1].id, rs[1].message);
        assert(unfilled(rs)[k] == (r1.id, r1.message));
    }
    assert(rs[2] == r2);
    if !r2.filled {
        let k = choose|k: int| 0 <= k < unfilled(rs).len() && unfilled(rs)[k] == (rs[2].id, rs[2].message);
        assert(unfilled(rs)[k] == (r2.id, r2.message));
    }
    assert(rs[3] == r3);
    if !r3.filled {
        let k = choose|k: int| 0 <= k < unfilled(rs).len() && unfilled(rs)[k] == (rs[3].id, rs[3].message);
        assert(unfilled(rs)[k] == (r3.id, r3.message));
    }
    assert(rs[4] == r4);
    if !r4.filled {
        let k = choose|k: int| 0 <= k < unfilled(rs).len() && unfilled(rs)[k] == (rs[4].id, rs[4].message);
        assert(unfilled(rs)[k] == (r4.id, r4.message));
    }
}

/// A phone notice requires the secrecy level and the issuing unit in the
/// header and the recipient in the body, and reports each one left blank.
#[verifier::spinoff_prover]
#[verifier::rlimit(40)]
pub proof fn lemma_phone_notice_form(d: DraftInput)
    requires
        d.kind == TemplateKind::PhoneNotice,
    ensures
        ({
            let rs = requirements(d);
            let p = d.profile;
            &&& required_in(rs, FormSection::Header) == 2
            &&& filled_in(rs, FormSection::Header) == count_if(!is_blank(p.security_level@)) + count_if(!is_blank(p.issuing_unit@))
            &&& required_in(rs, FormSection::Body) == 1
            &&& filled_in(rs, FormSection::Body) == count_if(!is_blank(p.recipient@))
            &&& required_in(rs, FormSection::Record) == 0
            &&& filled_in(rs, FormSection::Record) == 0
            &&& is_blank(p.security_level@) ==> unfilled(rs).contains(("security_level"@, "密级是所有文稿类型的必填项"@))
            &&& is_blank(p.issuing_unit@) ==> unfilled(rs).contains(("phone_notice_issuing_unit"@, "电话通知必须有发文单位"@))
            &&& is_blank(p.recipient@) ==> unfilled(rs).contains(("phone_notice_recipient"@, "电话通知必须有主送单位"@))
        }),
{
    let rs = requirements(d);
    let p = d.profile;
    let s0 = Seq::<RequirementModel>::empty();
    let r0 = req(FormSection::Header, "security_level"@, !is_blank(p.security_level@), "密级是所有文稿类型的必填项"@);
    lemma_requirements_push(s0, r0);
    let s1 = s0.push(r0);
    let r1 = req(FormSection::Header, "phone_notice_issuing_unit"@, !is_blank(p.issuing_unit@), "电话通知必须有发文单位"@);
    lemma_requirements_push(s1, r1);
    let s2 = s1.push(r1);
    let r2 = req(FormSection::Body, "phone_notice_recipient"@, !is_blank(p.recipient@), "电话通知必须有主送单位"@);
    lemma_requirements_push(s2, r2);
    let s3 = s2.push(r2);
    assert(rs =~= s3);
    lemma_unfilled_members(rs);
    assert(rs[0] == r0);
    if !r0.filled {
        let k = choose|k: int| 0 <= k < unfilled(rs).len() && unfilled(rs)[k] == (rs[0].id, rs[0].message);
        assert(unfilled(rs)[k] == (r0.id, r0.message));
    }
    assert(rs[1] == r1);
    if !r1.filled {
        let k = choose|k: int| 0 <= k < unfilled(rs).len() && unfilled(rs)[k] == (rs[1].id, rs[1].message);
        assert(unfilled(rs)[k] == (r1.id, r1.message));
    }
    assert(rs[2] == r2);
    if !r2.filled {
        let k = choose|k: int| 0 <= k < unfilled(rs).len() && unfilled(rs)[k] == (rs[2].id, rs[2].message);
        assert(unfilled(rs)[k] == (r2.id, r2.message));
    }
}

/// A plain document requires the secrecy level alone.
#[verifier::spinoff_prover]
#[verifier::rlimit(40)]
pub proof fn lemma_plain_document_form(d: DraftInput)
    requires
        d.kind == TemplateKind::PlainDocument,
    ensures
        ({
            let rs = requirements(d);
            let p = d.profile;
            &&& required_in(rs, FormSection::Header) == 1
            &&& filled_in(rs, FormSection::Header) == count_if(!is_blank(p.security_level@))
            &&& required_in(rs, FormSection::Body) == 0
            &&& filled_in(rs, FormSection::Body) == 0
            &&& required_in(rs, FormSection::Record) == 0
            &&& filled_in(rs, FormSection::Record) == 0
            &&& is_blank(p.security_level@) ==> unfilled(rs).contains(("security_level"@, "密级是所有文稿类型的必填项"@))
        }),
{
    let rs = requirements(d);
    let p = d.profile;
    let s0 = Seq::<RequirementModel>::empty();
    let r0 = req(FormSection::Header, "security_level"@, !is_blank(p.security_level@), "密级是所有文稿类型的必填项"@);
    lemma_requirements_push(s0, r0);
    let s1 = s0.push(r0);
    assert(rs =~= s1);
    lemma_unfilled_members(rs);
    assert(rs[0] == r0);
    if !r0.filled {
        let k = choose|k: int| 0 <= k < unfilled(rs).len() && unfilled(rs)[k] == (rs[0].id, rs[0].message);
        assert(unfilled(rs)[k] == (r0.id, r0.message));
    }
}

/// A meeting agenda requires the secrecy level in the header and the time,
/// place and attendees in the body, and reports each one left blank.
#[verifier::spinoff_prover]
#[verifier::rlimit(40)]
pub proof fn lemma_meeting_agenda_form(d: DraftInput)
    requires
        d.kind == TemplateKind::MeetingAgenda,
    ensures
        ({
            let rs = requirements(d);
            let p = d.profile;
            &&& required_in(rs, FormSection::Header) == 1
            &&& filled_in(rs, FormSection::Header) == count_if(!is_blank(p.security_level@))
            &&& required_in(rs, FormSection::Body) == 3
            &&& filled_in(rs, FormSection::Body) == count_if(!is_blank(d.meeting_time@)) + count_if(!is_blank(p.meeting_location@)) + count_if(!is_blank(d.attendees@))
            &&& required_in(rs, FormSection::Record) == 0
            &&& filled_in(rs, FormSection::Record) == 0
            &&& is_blank(p.security_level@) ==> unfilled(rs).contains(("security_level"@, "密级是所有文稿类型的必填项"@))
            &&& is_blank(d.meeting_time@) ==> unfilled(rs).contains(("meeting_time"@, "留空则由模型从素材提取，生成后需人工核对"@))
            &&& is_blank(p.meeting_location@) ==> unfilled(rs).contains(("meeting_location"@, "留空则由模型从素材提取，生成后需人工核对"@))
            &&& is_blank(d.attendees@) ==> unfilled(rs).contains(("attendees"@, "留空则由模型从素材归纳，生成后需人工核对"@))
        }),
{
    let rs = requirements(d);
    let p = d.profile;
    let s0 = Seq::<RequirementModel>::empty();
    let r0 = req(FormSection::Header, "security_level"@, !is_blank(p.security_level@), "密级是所有文稿类型的必填项"@);
    lemma_requirements_push(s0, r0);
    let s1 = s0.push(r0);
    let r1 = req(FormSection::Body, "meeting_time"@, !is_blank(d.meeting_time@), "留空则由模型从素材提取，生成后需人工核对"@);
    lemma_requirements_push(s1, r1);
    let s2 = s1.push(r1);
    let r2 = req(FormSection::Body, "meeting_location"@, !is_blank(p.meeting_location@), "留空则由模型从素材提取，生成后需人工核对"@);
    lemma_requirements_push(s2, r2);
    let s3 = s2.push(r2);
    let r3 = req(FormSection::Body, "attendees"@, !is_blank(d.attendees@), "留空则由模型从素材归纳，生成后需人工核对"@);
    lemma_requirements_push(s3, r3);
    let s4 = s3.push(r3);
    assert(rs =~= s4);
    lemma_unfilled_members(rs);
    assert(rs[0] == r0);
    if !r0.filled {
        let k = choose|k: int| 0 <= k < unfilled(rs).len() && unfilled(rs)[k] == (rs[0].id, rs[0].message);
        assert(unfilled(rs)[k] == (r0.id, r0.message));
    }
    assert(rs[1] == r1);
    if !r1.filled {
        let k = choose|k: int| 0 <= k < unfilled(rs).len() && unfilled(rs)[k] == (rs[1].id, rs[1].message);
        assert(unfilled(rs)[k] == (r1.id, r1.message));
    }
    assert(rs[2] == r2);
    if !r2.filled {
        let k = choose|k: int| 0 <= k < unfilled(rs).len() && unfilled(rs)[k] == (rs[2].id, rs[2].message);
        assert(unfilled(rs)[k] == (r2.id, r2.message));
    }
    assert(rs[3] == r3);
    if !r3.filled {
        let k = choose|k: int| 0 <= k < unfilled(rs).len() && unfilled(rs)[k] == (rs[3].id, rs[3].message);
        assert(unfilled(rs)[k] == (r3.id, r3.message));
    }
}

/// A white paper requires the secrecy level in the header, the leaders it
/// reports to in the body and the signing unit in the record, and reports
/// each one left blank.
#[verifier::spinoff_prover]
#[verifier::rlimit(40)]
pub proof fn lemma_white_paper_form(d: DraftInput)
    requires
        d.kind == TemplateKind::WhitePaper,
    ensures
        ({
            let rs = requirements(d);
            let p = d.profile;
            &&& required_in(rs, FormSection::Header) == 1
            &&& filled_in(rs, FormSection::Header) == count_if(!is_blank(p.security_level@))
            &&& required_in(rs, FormSection::Body) == 1
            &&& filled_in(rs, FormSection::Body) == count_if(!is_blank(p.reporting_leaders@))
            &&& required_in(rs, FormSection::Record) == 1
            &&& filled_in(rs, FormSection::Record) == count_if(!is_blank(p.signing_unit@))
            &&& is_blank(p.security_level@) ==> unfilled(rs).contains(("security_level"@, "密级是所有文稿类型的必填项"@))
            &&& is_blank(p.reporting_leaders@) ==> unfilled(rs).contains(("reporting_leaders"@, "白头件必须有呈报领导"@))
            &&& is_blank(p.signing_unit@) ==> unfilled(rs).contains(("signing_unit"@, "白头件必须有落款单位"@))
        }),
{
    let rs = requirements(d);
    let p = d.profile;
    let s0 = Seq::<RequirementModel>::empty();
    let r0 = req(FormSection::Header, "security_level"@, !is_blank(p.security_level@), "密级是所有文稿类型的必填项"@);
    lemma_requirements_push(s0, r0);
    let s1 = s0.push(r0);
    let r1 = req(FormSection::Body, "reporting_leaders"@, !is_blank(p.reporting_leaders@), "白头件必须有呈报领导"@);
    lemma_requirements_push(s1, r1);
    let s2 = s1.push(r1);
    let r2 = req(FormSection::Record, "signing_unit"@, !is_blank(p.signing_unit@), "白头件必须有落款单位"@);
    lemma_requirements_push(s2, r2);
    let s3 = s2.push(r2);
    assert(rs =~= s3);
    lemma_unfilled_members(rs);
    assert(rs[0] == r0);
    if !r0.filled {
        let k = choose|k: int| 0 <= k < unfilled(rs).len() && unfilled(rs)[k] == (rs[0].id, rs[0].message);
        assert(unfilled(rs)[k] == (r0.id, r0.message));
    }
    assert(rs[1] == r1);
    if !r1.filled {
        let k = choose|k: int| 0 <= k < unfilled(rs).len() && unfilled(rs)[k] == (rs[1].id, rs[1].message);
        assert(unfilled(rs)[k] == (r1.id, r1.message));
    }
    assert(rs[2] == r2);
    if !r2.filled {
        let k = choose|k: int| 0 <= k < unfilled(rs).len() && unfilled(rs)[k] == (rs[2].id, rs[2].message);
        assert(unfilled(rs)[k] == (r2.id, r2.message));
    }
}

/// A red-head approval requires the secrecy level and the issuing unit in the
/// header, the leaders it reports to in the body, and in the record the
/// signing unit and one complete handling-unit row; it reports each one
/// missing.
#[verifier::spinoff_prover]
#[verifier::rlimit(40)]
pub proof fn lemma_red_head_approval_form(d: DraftInput)
    requires
        d.kind == TemplateKind::RedHeadApproval,
    ensures
        ({
            let rs = requirements(d);
            let p = d.profile;
            &&& required_in(rs, FormSection::Header) == 2
            &&& filled_in(rs, FormSection::Header) == count_if(!is_blank(p.security_level@)) + count_if(!is_blank(p.issuing_unit@))
            &&& required_in(rs, FormSection::Body) == 1
            &&& filled_in(rs, FormSection::Body) == count_if(!is_blank(p.reporting_leaders@))
            &&& required_in(rs, FormSection::Record) == 2
            &&& filled_in(rs, FormSection::Record) == count_if(!is_blank(p.signing_unit@)) + count_if(has_joint_entry(p.joint_contacts@))
            &&& is_blank(p.security_level@) ==> unfilled(rs).contains(("security_level"@, "密级是所有文稿类型的必填项"@))
            &&& is_blank(p.issuing_unit@) ==> unfilled(rs).contains(("red_approval_issuing_unit"@, "红头呈批件必须有发文单位"@))
            &&& is_blank(p.reporting_leaders@) ==> unfilled(rs).contains(("red_approval_reporting_leaders"@, "红头呈批件必须有呈报领导"@))
            &&& is_blank(p.signing_unit@) ==> unfilled(rs).contains(("red_approval_signing_unit"@, "红头呈批件必须有落款单位"@))
            &&& !has_joint_entry(p.joint_contacts@) ==> unfilled(rs).contains(("red_approval_responsible"@, "至少需要一条承办单位、联系人和电话"@))
        }),
{
    let rs = requirements(d);
    let p = d.profile;
    let s0 = Seq::<RequirementModel>::empty();
    let r0 = req(FormSection::Header, "security_level"@, !is_blank(p.security_level@), "密级是所有文稿类型的必填项"@);
    lemma_requirements_push(s0, r0);
    let s1 = s0.push(r0);
    let r1 = req(FormSection::Header, "red_approval_issuing_unit"@, !is_blank(p.issuing_unit@), "红头呈批件必须有发文单位"@);
    lemma_requirements_push(s1, r1);
    let s2 = s1.push(r1);
    let r2 = req(FormSection::Body, "red_approval_reporting_leaders"@, !is_blank(p.reporting_leaders@), "红头呈批件必须有呈报领导"@);
    lemma_requirements_push(s2, r2);
    let s3 = s2.push(r2);
    let r3 = req(FormSection::Record, "red_approval_signing_unit"@, !is_blank(p.signing_unit@), "红头呈批件必须有落款单位"@);
    lemma_requirements_push(s3, r3);
    let s4 = s3.push(r3);
    let r4 = req(FormSection::Record, "red_approval_responsible"@, has_joint_entry(p.joint_contacts@), "至少需要一条承办单位、联系人和电话"@);
    lemma_requirements_push(s4, r4);
    let s5 = s4.push(r4);
    assert(rs =~= s5);
    lemma_unfilled_members(rs);
    assert(rs[0] == r0);
    if !r0.filled {
        let k = choose|k: int| 0 <= k < unfilled(rs).len() && unfilled(rs)[k] == (rs[0].id, rs[0].message);
        assert(unfilled(rs)[k] == (r0.id, r0.message));
    }
    assert(rs[1] == r1);
    if !r1.filled {
        let k = choose|k: int| 0 <= k < unfilled(rs).len() && unfilled(rs)[k] == (rs[1].id, rs[1].message);
        assert(unfilled(rs)[k] == (r1.id, r1.message));
    }
    assert(rs[2] == r2);
    if !r2.filled {
        let k = choose|k: int| 0 <= k < unfilled(rs).len() && unfilled(rs)[k] == (rs[2].id, rs[2].message);
        assert(unfilled(rs)[k] == (r2.id, r2.message));
    }
    assert(rs[3] == r3);
    if !r3.filled {
        let k = choose|k: int| 0 <= k < unfilled(rs).len() && unfilled(rs)[k] == (rs[3].id, rs[3].message);
        assert(unfilled(rs)[k] == (r3.id, r3.message));
    }
    assert(rs[4] == r4);
    if !r4.filled {
        let k = choose|k: int| 0 <= k < unfilled(rs).len() && unfilled(rs)[k] == (rs[4].id, rs[4].message);
        assert(unfilled(rs)[k] == (r4.id, r4.message));
    }
}

/// Every piece already filled keeps the list as it is.
proof fn lemma_non_empty_pieces_all(ps: Seq<Seq<char>>)
    requires
        forall|i: int| 0 <= i < ps.len() ==> (#[trigger] ps[i]).len() > 0,
    ensures
        non_empty_pieces(ps) == ps,
    decreases ps.len(),
{
    if ps.len() > 0 {
        lemma_non_empty_pieces_all(ps.drop_last());
        assert(ps[ps.len() - 1] == ps.last());
        assert(ps.drop_last().push(ps.last()) =~= ps);
    }
}

/// A list of units written with 顿号 between them reads back as the same
/// units, when each unit is filled, has no whitespace at either end and no
/// 顿号 of its own.
pub proof fn lemma_units_round_trip(us: Seq<Seq<char>>)
    requires
        forall|i: int| 0 <= i < us.len() ==> {
            &&& (#[trigger] us[i]).len() > 0
            &&& !crate::text::is_ws(us[i][0])
            &&& !crate::text::is_ws(us[i].last())
            &&& crate::table::no_sep(us[i], '、')
        },
    ensures
        units_of(join_text(us, "、"@)) == us,
{
    reveal_strlit("、");
    assert("、"@ =~= seq!['、']);
    if us.len() == 0 {
        assert(split_at_char(Seq::<char>::empty(), '、') == seq![Seq::<char>::empty()]);
        let pieces = seq![Seq::<char>::empty()].map_values(|p: Seq<char>| trim(p));
        assert(pieces =~= seq![Seq::<char>::empty()]);
        assert(pieces.drop_last() =~= Seq::<Seq<char>>::empty());
        assert(pieces.last().len() == 0);
        assert(non_empty_pieces(pieces.drop_last()) =~= Seq::<Seq<char>>::empty());
        assert(non_empty_pieces(pieces) =~= us);
    } else {
        crate::table::lemma_split_join_sep(us, '、');
        let trimmed = us.map_values(|p: Seq<char>| trim(p));
        assert forall|i: int| 0 <= i < us.len() implies #[trigger] trimmed[i] == us[i] by {
            let u = us[i];
            assert(crate::text::trim_start(u) == u);
            assert(crate::text::trim_end(u) == u);
        }
        assert(trimmed =~= us);
        lemma_non_empty_pieces_all(us);
    }
}

} // verus!
