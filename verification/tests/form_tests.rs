use gongwen::draft_page::FormSection;
use gongwen::form::{
    check_form, edit_joint_rows, fill_department_code, form_choices, padded_joint_contacts, split_units, JointRowEdit,
};
use gongwen::models::{DraftInput, JointContact, JointIssuanceMode, TemplateKind, VocabularyCategory, VocabularyEntry};

const SECTIONS: [FormSection; 3] = [FormSection::Header, FormSection::Body, FormSection::Record];

#[test]
fn form_check_agrees_with_validator_on_an_empty_draft() {
    for kind in TemplateKind::all() {
        let mut draft = DraftInput { kind, ..Default::default() };
        draft.profile.security_level.clear();
        let check = check_form(&draft);
        assert!(check.get("security_level").is_some(), "{kind:?}：密级是所有文种的必填项");
        let missing: usize = SECTIONS.iter().map(|section| check.progress[section.index()].missing()).sum();
        assert!(missing > 0, "{kind:?}：空稿的必填项不可能已齐");
    }
}

#[test]
fn form_check_clears_once_required_letter_elements_are_filled() {
    let mut draft = DraftInput { kind: TemplateKind::OfficialLetter, ..Default::default() };
    draft.profile.security_level = "机密".into();
    draft.profile.issuing_unit = "甲单位".into();
    draft.profile.recipient = "乙单位".into();
    let check = check_form(&draft);
    for section in SECTIONS {
        assert_eq!(check.progress[section.index()].missing(), 0, "{}段仍报缺项", section.label());
    }
    assert!(check.errors.is_empty());
}

#[test]
fn a_joint_letter_needs_two_issuers_and_a_main_one_among_them() {
    let mut draft = DraftInput { kind: TemplateKind::OfficialLetter, ..Default::default() };
    draft.profile.security_level = "内部".into();
    draft.profile.joint_issuance_mode = JointIssuanceMode::Mode1;
    draft.profile.joint_issuing_units = "甲单位".into();
    draft.profile.main_issuing_unit = "乙单位".into();
    let check = check_form(&draft);
    assert_eq!(check.progress[0].total, 4);
    assert_eq!(check.progress[0].done, 2);
    assert_eq!(check.get("joint_issuing_units_count").map(String::as_str), Some("联合发文模式1至少需要两个发文单位"));
    assert_eq!(check.get("main_issuing_unit").map(String::as_str), Some("须从发文单位中指定一个主发文单位"));
    draft.profile.joint_issuing_units = "甲单位、 乙单位 ".into();
    draft.profile.main_issuing_unit = " 乙单位".into();
    draft.profile.recipient = "丙单位".into();
    let check = check_form(&draft);
    assert!(check.errors.is_empty());
}

#[test]
fn an_approval_needs_a_complete_handling_row() {
    let mut draft = DraftInput { kind: TemplateKind::RedHeadApproval, ..Default::default() };
    draft.profile.joint_contacts =
        vec![JointContact { unit: "甲单位".into(), name: "张三".into(), phone: String::new() }];
    assert!(check_form(&draft).get("red_approval_responsible").is_some());
    draft.profile.joint_contacts[0].phone = "1234".into();
    assert!(check_form(&draft).get("red_approval_responsible").is_none());
}

#[test]
fn unit_lists_are_cut_at_the_enumeration_comma() {
    assert_eq!(split_units(" 甲单位、、乙单位 、 "), vec!["甲单位".to_string(), "乙单位".to_string()]);
    assert!(split_units("  ").is_empty());
}

#[test]
fn a_unit_picked_once_is_blocked_for_the_other_pickers() {
    let mut draft = DraftInput { kind: TemplateKind::OfficialLetter, ..Default::default() };
    draft.profile.issuing_unit = "甲单位".into();
    draft.profile.recipient = "乙单位、丙单位".into();
    draft.profile.copies_to = "丁单位".into();
    draft.profile.responsible_unit = " 戊处 ".into();
    let vocabulary = vec![VocabularyEntry {
        category: VocabularyCategory::Person,
        canonical: "张三 ".into(),
        position: "处长".into(),
        code: "A01".into(),
        ..Default::default()
    }];
    let candidates = vec![("张三".to_string(), "1234".to_string()), ("李四".to_string(), String::new())];
    let choices = form_choices(&draft, &vocabulary, &candidates);
    assert_eq!(choices.blocked_for_recipient, vec!["丁单位".to_string(), "甲单位".to_string()]);
    assert_eq!(choices.blocked_for_copies, vec!["乙单位".to_string(), "丙单位".to_string(), "甲单位".to_string()]);
    assert_eq!(choices.filter_units, vec![" 戊处 ".to_string()]);
    assert_eq!(choices.filter_note.as_deref(), Some("联系人已按承办单位“戊处”过滤。"));
    assert_eq!(choices.leaders[0].label, "A01 张三 处长");
    assert_eq!(choices.leaders[0].full, "张三 处长");
    assert_eq!(choices.leaders[1].label, "李四");

    let mut paper = DraftInput { kind: TemplateKind::WhitePaper, ..Default::default() };
    assert_eq!(form_choices(&paper, &vocabulary, &candidates).filter_note, None);
    paper.profile.signing_unit = "甲单位、乙单位".into();
    assert_eq!(
        form_choices(&paper, &vocabulary, &candidates).filter_note.as_deref(),
        Some("呈报领导已按落款单位“甲单位、乙单位”及其上级领导过滤。")
    );
}

#[test]
fn old_contact_rows_are_padded_from_the_unit_list() {
    let units = vec!["甲".to_string(), "乙".to_string(), "丙".to_string()];
    let rows = vec![JointContact { unit: "甲".into(), name: "张三".into(), phone: "1".into() }];
    let padded = padded_joint_contacts(&units, rows);
    assert_eq!(padded.len(), 3);
    assert_eq!(padded[0].name, "张三");
    assert_eq!((padded[2].unit.as_str(), padded[2].name.as_str(), padded[2].phone.as_str()), ("丙", "", ""));
    let more = vec![JointContact::default(), JointContact::default()];
    assert_eq!(padded_joint_contacts(&vec!["甲".to_string()], more).len(), 2);
}

#[test]
fn handling_rows_are_removed_added_and_capped() {
    let mut rows = vec![JointContact { unit: "甲".into(), ..Default::default() }];
    assert!(!edit_joint_rows(&mut rows, JointRowEdit::Remove(0), None), "the last row stays");
    assert!(edit_joint_rows(&mut rows, JointRowEdit::Add, Some(2)));
    assert!(!edit_joint_rows(&mut rows, JointRowEdit::Add, Some(2)), "two rows is the cap");
    assert!(edit_joint_rows(&mut rows, JointRowEdit::Remove(0), Some(2)));
    assert_eq!(rows.len(), 1);
    assert_eq!(rows[0].unit, "");
}

#[test]
fn a_department_code_is_filled_only_into_a_blank_one() {
    let mut draft = DraftInput::default();
    fill_department_code(&mut draft.profile, "京");
    assert_eq!(draft.profile.department_code, "京");
    fill_department_code(&mut draft.profile, "沪");
    assert_eq!(draft.profile.department_code, "京");
}
