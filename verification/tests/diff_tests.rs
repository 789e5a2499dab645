use gongwen::diff::{
    body_diff, config_changes, draft_changes, inline_spans, manuscript_diff, tokenize, BlockChange,
    BlockRole, BodyDiff, ChangeKind, ContentSnapshot, DiffBlock, InlineSpan, SpanKind,
};
use gongwen::models::{AppConfig, DraftInput, VersionRecord, VocabularyCategory, VocabularyEntry};

/// The changes of a body diff, in order.
fn changes(diff: &BodyDiff) -> Vec<&BlockChange> {
    diff.blocks
        .iter()
        .filter_map(|block| match block {
            DiffBlock::Changed(change) => Some(change),
            DiffBlock::Unchanged(_) => None,
        })
        .collect()
}

/// The text of the pieces of one kind, joined.
fn marked(spans: &[InlineSpan], kind: SpanKind) -> String {
    spans
        .iter()
        .filter(|span| span.kind == kind)
        .map(|span| span.text.as_str())
        .collect()
}

/// One side rebuilt from its pieces.
fn side_text(spans: &[InlineSpan]) -> String {
    spans.iter().map(|span| span.text.as_str()).collect()
}

#[test]
fn body_diff_marks_only_the_edited_characters() {
    let old = "# 通知\n\n请某某市教育局于八月十日前报送材料。";
    let new = "# 通知\n\n请某某市教育厅于八月十日前报送材料。";
    let diff = body_diff(old, new);
    let changes = changes(&diff);
    assert_eq!(diff.changed_count, 1);
    assert_eq!(changes[0].kind, ChangeKind::Replace);
    assert_eq!(changes[0].role, BlockRole::Paragraph);
    assert_eq!(marked(&changes[0].before_spans, SpanKind::Removed), "局");
    assert_eq!(marked(&changes[0].after_spans, SpanKind::Added), "厅");
    assert!(diff
        .blocks
        .iter()
        .any(|block| matches!(block, DiffBlock::Unchanged(_))));
}

#[test]
fn body_diff_keeps_direction_old_to_new() {
    let diff = body_diff("旧内容", "新内容");
    let changes = changes(&diff);
    assert_eq!(side_text(&changes[0].before_spans), "旧内容");
    assert_eq!(side_text(&changes[0].after_spans), "新内容");
}

#[test]
fn body_diff_reports_pure_insert_without_pairing() {
    let old = "第一段\n\n第三段";
    let new = "第一段\n\n第二段\n\n第三段";
    let diff = body_diff(old, new);
    let changes = changes(&diff);
    assert_eq!(changes.len(), 1);
    assert_eq!(changes[0].kind, ChangeKind::Insert);
    assert_eq!(side_text(&changes[0].after_spans), "第二段");
    assert!(changes[0].before_spans.is_empty());
    let range = changes[0].new_range.clone().expect("新增段应有源码位置");
    assert_eq!(&new[range], "第二段");
}

#[test]
fn body_diff_reports_pure_delete_without_source_anchor() {
    let diff = body_diff("第一段\n\n第二段", "第一段");
    let changes = changes(&diff);
    assert_eq!(changes.len(), 1);
    assert_eq!(changes[0].kind, ChangeKind::Delete);
    assert_eq!(side_text(&changes[0].before_spans), "第二段");
    assert!(changes[0].after_spans.is_empty());
    assert!(changes[0].new_range.is_none());
}

#[test]
fn body_diff_does_not_pair_unrelated_paragraphs() {
    let diff = body_diff("关于召开会议的安排", "兹定于下周开展专项检查工作");
    let kinds: Vec<ChangeKind> = changes(&diff).iter().map(|c| c.kind).collect();
    assert_eq!(kinds, [ChangeKind::Delete, ChangeKind::Insert]);
}

#[test]
fn body_diff_does_not_pair_heading_with_paragraph() {
    let diff = body_diff("## 一、总体要求", "一、总体要求");
    let kinds: Vec<ChangeKind> = changes(&diff).iter().map(|c| c.kind).collect();
    assert_eq!(kinds, [ChangeKind::Delete, ChangeKind::Insert]);
}

#[test]
fn body_diff_marks_single_table_cell() {
    let old = "| 项目 | 数量 |\n| --- | --- |\n| 甲 | 1 |\n| 乙 | 2 |";
    let new = "| 项目 | 数量 |\n| --- | --- |\n| 甲 | 3 |\n| 乙 | 2 |";
    let diff = body_diff(old, new);
    let changes = changes(&diff);
    assert_eq!(diff.changed_count, 1);
    assert_eq!(changes[0].role, BlockRole::TableRow);
    assert_eq!(marked(&changes[0].before_spans, SpanKind::Removed), "1");
    assert_eq!(marked(&changes[0].after_spans, SpanKind::Added), "3");
}

#[test]
fn body_diff_ignores_blank_line_noise() {
    let diff = body_diff("第一段\n\n第二段", "第一段\n\n\n\n第二段");
    assert_eq!(diff.changed_count, 0);
    assert!(diff.is_empty());
    assert!(body_diff("甲\n\n乙", "甲\n\n乙").is_empty());
}

#[test]
fn body_diff_handles_empty_sides() {
    assert!(body_diff("", "").is_empty());
    let added = body_diff("", "新起的一段");
    assert_eq!(added.changed_count, 1);
    assert_eq!(changes(&added)[0].kind, ChangeKind::Insert);
    let removed = body_diff("原有一段\n\n再一段", "");
    assert_eq!(removed.changed_count, 2);
    assert!(changes(&removed)
        .iter()
        .all(|change| change.kind == ChangeKind::Delete));
}

#[test]
fn body_diff_line_numbers_point_at_source_lines() {
    let old = "# 标题\n\n第一段\n\n第二段";
    let new = "# 标题\n\n第一段改了\n\n第二段";
    let diff = body_diff(old, new);
    let changes = changes(&diff);
    assert_eq!(changes[0].old_line, 3);
    assert_eq!(changes[0].new_line, 3);
}

#[test]
fn inline_diff_degrades_gracefully_on_huge_paragraphs() {
    let old = "甲".repeat(700);
    let new = format!("{}乙", "甲".repeat(699));
    let diff = body_diff(&old, &new);
    let changes = changes(&diff);
    assert_eq!(changes[0].kind, ChangeKind::Replace);
    assert_eq!(changes[0].before_spans.len(), 1);
    assert_eq!(changes[0].before_spans[0].kind, SpanKind::Removed);
    assert_eq!(changes[0].after_spans.len(), 1);
    assert_eq!(changes[0].after_spans[0].kind, SpanKind::Added);
}

#[test]
fn tokenize_groups_ascii_runs_and_splits_han() {
    assert_eq!(tokenize("2026年8月"), ["2026", "年", "8", "月"]);
    assert_eq!(tokenize("PDF件"), ["PDF", "件"]);
    let (before, after) = inline_spans("〔2026〕12号", "〔2026〕13号");
    assert_eq!(marked(&before, SpanKind::Removed), "12");
    assert_eq!(marked(&after, SpanKind::Added), "13");
}

#[test]
fn draft_changes_report_form_fields() {
    let mut a = DraftInput::default();
    a.title_hint = "关于召开会议的通知".into();
    a.profile.document_number = "某教函〔2026〕12号".into();
    let mut b = a.clone();
    b.title_hint = "关于调整会议时间的通知".into();
    b.profile.responsible_unit = "教师工作处".into();
    let changes = draft_changes(&a, &b);
    let labels: Vec<&str> = changes.iter().map(|c| c.label).collect();
    assert!(labels.contains(&"标题提示"));
    assert!(labels.contains(&"承办单位"));
    assert!(changes.iter().all(|c| c.label != "文种" && c.label != "文号"));
}

#[test]
fn identical_drafts_produce_no_changes() {
    let a = DraftInput::default();
    let b = DraftInput::default();
    assert!(draft_changes(&a, &b).is_empty());
}

#[test]
fn config_changes_split_vocabulary_profiles_and_settings() {
    let mut a = AppConfig::default();
    let mut b = AppConfig::default();
    assert!(config_changes(&a, &b).vocabulary.is_empty());
    assert!(config_changes(&a, &b).settings.is_empty());

    a.vocabulary.push(VocabularyEntry {
        id: 1,
        category: VocabularyCategory::Unit,
        canonical: "某某省教育厅".into(),
        ..Default::default()
    });
    b.vocabulary.push(VocabularyEntry {
        id: 1,
        category: VocabularyCategory::Unit,
        canonical: "某某省教育厅".into(),
        abbr: "省教育厅".into(),
        seal_on_behalf: true,
        ..Default::default()
    });
    b.vocabulary.push(VocabularyEntry {
        id: 2,
        category: VocabularyCategory::Person,
        canonical: "张三".into(),
        ..Default::default()
    });
    let report = config_changes(&a, &b);
    let actions: Vec<&str> = report.vocabulary.iter().map(|v| v.action).collect();
    assert!(actions.contains(&"新增"));
    assert!(actions.contains(&"修改"));
    assert!(report.vocabulary.iter().any(|change| {
        change
            .changes
            .iter()
            .any(|field| field.label == "是否代章" && field.after == "是")
    }));
    assert_eq!(
        report
            .vocabulary
            .iter()
            .filter(|v| v.action == "新增")
            .count(),
        1
    );

    b.security_rules.top_secret_max_years = 40;
    let report = config_changes(&a, &b);
    assert!(report
        .settings
        .iter()
        .any(|c| c.label == "绝密级上限（年）"));
}

#[test]
fn manuscript_diff_splits_fields_body_and_notes() {
    let old = ContentSnapshot::new(DraftInput::default(), "# 甲".into(), "备注a".into());
    let mut snapshot = DraftInput::default();
    snapshot.title_hint = "关于甲的通知".into();
    let new = ContentSnapshot::new(snapshot, "# 甲\n\n正文".into(), "备注b".into());
    let diff = manuscript_diff(&old, &new);
    assert!(diff.fields.iter().all(|change| change.label != "正文"));
    assert!(diff.fields.iter().any(|change| change.label == "标题提示"));
    assert_eq!(diff.body.changed_count, 1);
    let notes = diff.notes.as_ref().expect("备注变了应有一项");
    assert_eq!(
        (notes.before.as_str(), notes.after.as_str()),
        ("备注a", "备注b")
    );
    assert_eq!(diff.total(), 3);
    assert!(!diff.is_empty());
}

#[test]
fn manuscript_diff_of_identical_content_is_empty() {
    let one = ContentSnapshot::new(DraftInput::default(), "# 甲\n\n正文".into(), "备注".into());
    let two = one.clone();
    let diff = manuscript_diff(&one, &two);
    assert!(diff.is_empty());
    assert_eq!(diff.total(), 0);
    assert!(diff.notes.is_none());
}

#[test]
fn version_record_converts_to_snapshot() {
    let record = VersionRecord {
        version_number: 1,
        name: "v".into(),
        comment: String::new(),
        snapshot: DraftInput::default(),
        content_markdown: "# 甲".into(),
        notes: "备注".into(),
        created_at: String::new(),
    };
    let snapshot: ContentSnapshot = record.into();
    assert_eq!(snapshot.content_markdown, "# 甲");
    assert_eq!(snapshot.notes, "备注");
}

#[test]
fn a_config_compared_with_itself_and_a_changed_key_report_nothing() {
    let mut a = AppConfig::default();
    a.lm_studio.api_key = "sk-one".to_string();
    a.output_dir = "/tmp/公文".to_string();
    let same = gongwen::diff::config_changes(&a, &a);
    assert!(same.profiles.is_empty() && same.settings.is_empty() && same.vocabulary.is_empty());
    let mut b = a.clone();
    b.lm_studio.api_key = "sk-two".to_string();
    assert!(gongwen::diff::config_changes(&a, &b).settings.is_empty());
    b.lm_studio.api_key.clear();
    let changes = gongwen::diff::config_changes(&a, &b).settings;
    assert_eq!(changes.len(), 1);
    assert_eq!((changes[0].before.as_str(), changes[0].after.as_str()), ("••••••", ""));
}
