use gongwen::crash_log::{is_report_name, pretty_name, render_report, report_file_name, reports_to_prune, MAX_REPORTS};
use gongwen::markdown::chinese_date;
use gongwen::widgets::{version_hover, VersionRow};

#[test]
fn report_names_are_recognized() {
    assert!(is_report_name("crash-20260923-100005-000.log"));
    assert!(!is_report_name("crash-20260923-100005-000.txt"));
    assert!(!is_report_name(".unseen-crash"));
    assert!(!is_report_name("crash.log"));
    assert_eq!(report_file_name("20260923-100005-000"), "crash-20260923-100005-000.log");
}

#[test]
fn pruning_keeps_only_the_newest_reports() {
    let mut names: Vec<String> = (0..(MAX_REPORTS as u32 + 5))
        .rev()
        .map(|second| report_file_name(&format!("20260923-1000{second:02}-000")))
        .collect();
    names.push(".unseen-crash".to_string());
    names.push("notes.txt".to_string());
    let pruned = reports_to_prune(&names);
    assert_eq!(
        pruned,
        (0..5)
            .map(|second| report_file_name(&format!("20260923-1000{second:02}-000")))
            .collect::<Vec<_>>()
    );
    assert!(reports_to_prune(&names[..MAX_REPORTS]).is_empty());
}

#[test]
fn report_lists_environment_then_detail() {
    let vars = vec![("LANG".to_string(), "zh_CN.UTF-8".to_string())];
    let text = render_report(
        "测试",
        "信息：boom",
        "2026-09-23 10:00:01 +08:00",
        "1.2.3",
        "linux",
        "x86_64",
        Some("Ubuntu 24.04"),
        None,
        &vars,
    );
    assert_eq!(
        text,
        "公文助手崩溃日志\n类型：测试\n时间：2026-09-23 10:00:01 +08:00\n版本：1.2.3\n平台：linux / x86_64\n系统：Ubuntu 24.04\nLANG=zh_CN.UTF-8\n\n信息：boom\n"
    );
}

#[test]
fn os_release_pretty_name_loses_its_quotes() {
    assert_eq!(
        pretty_name("NAME=\"Ubuntu\"\nPRETTY_NAME=\"Ubuntu 24.04 LTS\"\nID=ubuntu\n").as_deref(),
        Some("Ubuntu 24.04 LTS")
    );
    assert_eq!(pretty_name("NAME=x\n"), None);
}

#[test]
fn dates_read_like_a_document_date() {
    assert_eq!(chinese_date(2025, 8, 11), "二〇二五年八月十一日");
    assert_eq!(chinese_date(2026, 10, 20), "二〇二六年十月二十日");
    assert_eq!(chinese_date(2026, 12, 31), "二〇二六年十二月三十一日");
    assert!(!chinese_date(2030, 1, 1).chars().any(|ch| ch.is_ascii_digit()));
}

use gongwen::draft_page::{stem_matches, DraftSession, ExportKind, ManuscriptStatus};
use gongwen::models::{VocabularyCategory, VocabularyEntry};
use gongwen::widgets::{layout_options, vocabulary_matches, SelectOption};

#[test]
fn export_links_stem_matching_uses_dash_boundary() {
    let matches = |name: &str| stem_matches(Some("普通公文-关于X"), name);
    assert!(matches("普通公文-关于X-202601011200"));
    assert!(matches("普通公文-关于X-2"));
    assert!(matches("普通公文-关于X"));
    assert!(matches("普通公文-关于X.pdf"));
    assert!(!matches("普通公文-关于X的补充-202601011300"));
    assert!(!matches("普通公文-关于X的补充.pdf"));
    assert!(!matches("电话通知-202601011300"));
    assert!(!matches("其他文件.txt"));
    assert!(stem_matches(None, "电话通知-202601011300"));
}

#[test]
fn export_kind_reads_extensions_in_any_case() {
    assert_eq!(ExportKind::from_extension("PDF"), Some(ExportKind::Pdf));
    assert_eq!(ExportKind::from_extension("Docx"), Some(ExportKind::Word));
    assert_eq!(ExportKind::from_extension("tex"), Some(ExportKind::Tex));
    assert_eq!(ExportKind::from_extension("md"), None);
}

fn option(value: &str, label: &str, parent: &str) -> SelectOption {
    SelectOption {
        value: value.to_string(),
        label: label.to_string(),
        full: format!("{parent}{label}"),
        parent: parent.to_string(),
        depth: 0,
    }
}

#[test]
fn options_indent_only_under_parents_still_listed() {
    let pool = vec![
        option("省厅", "省厅", ""),
        option("办公室", "办公室", "省厅"),
        option("秘书科", "秘书科", "办公室"),
    ];
    let all = layout_options(&pool, None);
    assert_eq!(all.iter().map(|o| o.depth).collect::<Vec<_>>(), [0, 1, 2]);
    assert_eq!(all[2].label, "秘书科");
    let kept = vec![" 省厅 ".to_string(), "秘书科".to_string()];
    let some = layout_options(&pool, Some(&kept));
    assert_eq!(some.len(), 2);
    // The parent is gone, the grandparent stays: one level under it.
    assert_eq!(some[1].depth, 1);
    let only_child = vec!["秘书科".to_string()];
    let alone = layout_options(&pool, Some(&only_child));
    assert_eq!(alone[0].depth, 0);
    assert_eq!(alone[0].label, "办公室秘书科");
}

#[test]
fn vocabulary_filter_searches_every_field_lowercased() {
    let entry = VocabularyEntry {
        id: 1,
        category: VocabularyCategory::Unit,
        canonical: "某某省教育厅".into(),
        code: "EDU".into(),
        aliases: vec!["教育厅".into(), "省厅".into()],
        seal_on_behalf: true,
        ..Default::default()
    };
    assert!(vocabulary_matches(&entry, ""));
    assert!(vocabulary_matches(&entry, "edu"));
    assert!(!vocabulary_matches(&entry, "EDU"));
    assert!(vocabulary_matches(&entry, "教育厅 省厅"));
    assert!(vocabulary_matches(&entry, "代章"));
    assert!(!vocabulary_matches(&entry, "财政厅"));
}

#[test]
fn version_hover_lists_the_details_and_dashes_empty_fields() {
    let row = VersionRow {
        version_number: 12,
        name: "送审稿".to_string(),
        comment: "按意见修改".to_string(),
        title: "关于报送材料的通知".to_string(),
        doc_number: String::new(),
        doc_date: "2026年9月23日".to_string(),
        created_at: "2026-09-23T10:00:05+08:00".to_string(),
    };
    assert_eq!(
        version_hover(&row),
        "v12 · 送审稿\n注释：按意见修改\n该版标题：关于报送材料的通知\n文号：—\n成文日期：2026年9月23日\n提交于 2026-09-23"
    );
    let plain = VersionRow { comment: String::new(), ..row };
    assert_eq!(
        version_hover(&plain),
        "v12 · 送审稿\n该版标题：关于报送材料的通知\n文号：—\n成文日期：2026年9月23日\n提交于 2026-09-23"
    );
}

#[test]
fn the_tab_mark_follows_saving_and_committing() {
    let json = "{\"kind\":\"Notice\"}";
    let mut session = DraftSession::from_parts(None, json, "");
    assert!(!session.touched(json, ""));
    assert!(!session.is_dirty(json, "  \n", ""));
    assert!(session.is_dirty(json, "正文", ""));
    assert!(session.is_dirty(json, "", "标题"));
    assert_eq!(session.dirty_mark(json, "正文", ""), "●");
    assert!(session.touched(json, "正文"));

    session.manuscript_id = Some(7);
    session.mark_saved(json, "正文");
    assert!(!session.touched(json, "正文"));
    assert!(!session.is_dirty(json, "正文", ""));
    assert!(session.has_uncommitted(json, "正文", ""));
    assert_eq!(session.dirty_mark(json, "正文", ""), "○");

    session.set_committed_baseline(Some((json.to_string(), "正文".to_string())));
    assert!(!session.has_uncommitted(json, "正文", ""));
    assert_eq!(session.dirty_mark(json, "正文", ""), "");
    assert!(session.is_dirty("{\"kind\":\"Letter\"}", "正文", ""));

    session.record_status = ManuscriptStatus::Published;
    assert!(session.read_only());
    assert!(!session.is_dirty(json, "改过的正文", ""));
    assert_eq!(session.dirty_mark(json, "改过的正文", ""), "");
}
