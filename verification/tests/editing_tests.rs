use gongwen::diff::{body_diff, InlineSpan, SpanKind};
use gongwen::diff_editor::{span_byte_ranges, span_char_ranges};
use gongwen::doc_import::normalize;
use gongwen::find::{blank_line_padding, expanded_replacement, markdown_matches, markdown_matches_mode, run_find_action, FindAction};
use gongwen::hunks::{diff_hunks, hunks, revert, DeletedRow, Hunk};
use gongwen::align::{align_marker, governing_align_marker, toggle_align_region, AlignEdit, LineAlign};
use gongwen::markdown::{line_ranges, map_lines, set_heading, splice_own_line, tidy_blank_lines, toggle_bold, toggle_bullet};
use gongwen::widgets::print_verb_script;

#[test]
fn print_script_doubles_single_quotes_in_the_path() {
    let script = print_verb_script("/tmp/张三's/公文.pdf");
    assert_eq!(
        script,
        "Start-Process -FilePath '/tmp/张三''s/公文.pdf' -Verb Print"
    );
}

#[test]
fn print_script_keeps_an_ordinary_path_verbatim() {
    let script = print_verb_script("/tmp/公文.pdf");
    assert_eq!(script, "Start-Process -FilePath '/tmp/公文.pdf' -Verb Print");
}

#[test]
fn normalize_collapses_blank_runs_and_trims() {
    let raw = "# 标题\r\n\r\n\r\n正文一   \r\n\r\n\r\n\r\n正文二\r\n\r\n";
    assert_eq!(normalize(raw), "# 标题\n\n正文一\n\n正文二");
}

#[test]
fn normalize_keeps_single_blank_between_blocks() {
    let raw = "| a | b |\n| --- | --- |\n| 1 | 2 |\n\n结语";
    assert_eq!(normalize(raw), raw);
}

#[test]
fn imported_block_gets_blank_lines_on_both_sides() {
    let splice = |text: &str, pos: usize, block: &str| {
        let lead = blank_line_padding(&text[..pos], true);
        let tail = blank_line_padding(&text[pos..], false);
        let mut out = text.to_string();
        out.insert_str(pos, &format!("{lead}{block}{tail}"));
        out
    };
    assert_eq!(splice("", 0, "# 标题"), "# 标题");
    assert_eq!(splice("前后", 3, "表格"), "前\n\n表格\n\n后");
    assert_eq!(splice("上\n", 4, "块"), "上\n\n块");
    assert_eq!(splice("上\n\n\n\n下", 5, "块"), "上\n\n块\n\n下");
}

#[test]
fn markdown_find_returns_utf8_safe_ranges() {
    let text = "标题：重点工作\n正文：重点工作";
    let matches = markdown_matches(text, "重点", true);
    assert_eq!(matches.len(), 2);
    assert_eq!(&text[matches[0].clone()], "重点");
    assert_eq!(&text[matches[1].clone()], "重点");
    assert!(matches
        .iter()
        .all(|range| text.is_char_boundary(range.start) && text.is_char_boundary(range.end)));
}

#[test]
fn markdown_find_can_ignore_ascii_case() {
    let text = "Markdown markdown MARKDOWN";
    assert_eq!(markdown_matches(text, "markdown", false).len(), 3);
    assert_eq!(markdown_matches(text, "markdown", true).len(), 1);
}

#[test]
fn reverse_replacement_keeps_all_match_ranges_valid() {
    let mut text = "甲处、甲处、甲处".to_string();
    let matches = markdown_matches(&text, "甲处", true);
    for range in matches.into_iter().rev() {
        text.replace_range(range, "乙单位");
    }
    assert_eq!(text, "乙单位、乙单位、乙单位");
}

#[test]
fn set_heading_replaces_existing_level() {
    assert_eq!(set_heading("正文一段", 2), "## 正文一段");
    assert_eq!(set_heading("## 一级标题", 3), "### 一级标题");
    assert_eq!(set_heading("### 二级标题", 0), "二级标题");
    assert_eq!(set_heading("  ## 带缩进", 2), "## 带缩进");
}

#[test]
fn toggle_bullet_switches_both_ways() {
    assert_eq!(toggle_bullet("一条"), "- 一条");
    assert_eq!(toggle_bullet("- 一条"), "一条");
    assert_eq!(toggle_bullet("* 一条"), "一条");
    assert_eq!(toggle_bullet(""), "", "空行不加符号");
}

#[test]
fn map_lines_covers_every_touched_line() {
    let text = "第一行\n第二行\n第三行";
    let start = text.find("一行").expect("命中");
    let end = text.find("二行").expect("命中");
    let (updated, span) = map_lines(text, &(start..end), |line| set_heading(line, 2));
    assert_eq!(updated, "## 第一行\n## 第二行\n第三行");
    assert_eq!(&updated[span], "## 第一行\n## 第二行");
}

#[test]
fn toggle_bold_wraps_and_unwraps() {
    let text = "这是重点内容";
    let range = text.find("重点").expect("命中")..text.find("内容").expect("命中");
    let (bolded, selection) = toggle_bold(text, &range);
    assert_eq!(bolded, "这是**重点**内容");
    assert_eq!(&bolded[selection.clone()], "重点");
    let (plain, restored) = toggle_bold(&bolded, &selection);
    assert_eq!(plain, "这是重点内容");
    assert_eq!(&plain[restored], "重点");
    let whole = bolded.find("**").expect("命中")..bolded.rfind("**").expect("命中") + 2;
    assert_eq!(toggle_bold(&bolded, &whole).0, "这是重点内容");
}

#[test]
fn tidy_blank_lines_collapses_runs() {
    assert_eq!(tidy_blank_lines("标题   \n\n\n\n正文\n\n\n"), "标题\n\n正文\n");
    assert_eq!(tidy_blank_lines(""), "");
}

#[test]
fn span_ranges_count_bytes_and_chars_separately() {
    let spans = [
        InlineSpan {
            kind: SpanKind::Same,
            text: "请于八月".into(),
        },
        InlineSpan {
            kind: SpanKind::Added,
            text: "十五".into(),
        },
    ];
    let (bytes, chars) = (12..18, 4..6);
    assert_eq!(span_byte_ranges(&spans, SpanKind::Added), [bytes]);
    assert_eq!(span_char_ranges(&spans, SpanKind::Added), [chars]);
}

fn plan(old: &str, new: &str) -> Vec<Hunk> {
    hunks(&body_diff(old, new), new)
}

const OLD: &str = "# 标题\n\n第一段。\n\n请于八月十日前报送。\n\n多余的一段。\n\n第五段。";
const NEW: &str = "# 标题\n\n第一段。\n\n请于八月十五日前报送。\n\n第五段。\n\n新增的结尾段。";

#[test]
fn consecutive_changes_group_into_one_hunk() {
    let hunks = plan(OLD, NEW);
    assert_eq!(hunks.len(), 2, "{hunks:#?}");
    let first = &hunks[0];
    assert_eq!(first.deleted.len(), 2);
    assert_eq!(first.deleted[0].text(), "请于八月十日前报送。");
    assert_eq!(first.deleted[1].text(), "多余的一段。");
    assert_eq!(first.added.len(), 1);
    assert_eq!(first.added[0].line, 4, "改写后的行是新文本第 5 行");
    assert_eq!(first.gap_line, 4, "旧行叠在改写行上方");
    assert!(first.touches_line(4));
    let second = &hunks[1];
    assert!(second.deleted.is_empty());
    assert_eq!(second.added[0].line, 8);
    assert!(second.added[0].spans.is_empty(), "整行新增不做字级高亮");
}

#[test]
fn a_pure_deletion_opens_its_gap_above_the_next_line() {
    let old = "甲。\n\n乙。\n\n丙。";
    let new = "甲。\n\n丙。";
    let hunks = plan(old, new);
    assert_eq!(hunks.len(), 1);
    assert_eq!(hunks[0].gap_line, 2, "空隙开在「丙」之前");
    assert!(hunks[0].touches_line(2));
    let tail = plan("甲。\n\n乙。", "甲。");
    assert_eq!(tail[0].gap_line, 1, "删的是末尾：空隙开在文末");
}

#[test]
fn reverting_a_hunk_removes_only_that_hunk() {
    let hunks = plan(OLD, NEW);
    for (index, hunk) in hunks.iter().enumerate() {
        let (text, _) = revert(hunk, OLD, NEW);
        let after = plan(OLD, &text);
        assert_eq!(after.len(), hunks.len() - 1, "还原第 {index} 块：{text:?}");
        let other = &hunks[1 - index];
        let remaining = &after[0];
        assert_eq!(
            remaining.deleted.iter().map(DeletedRow::text).collect::<Vec<_>>(),
            other.deleted.iter().map(DeletedRow::text).collect::<Vec<_>>()
        );
    }
}

#[test]
fn reverting_every_hunk_gives_back_the_old_text() {
    let cases = [
        (OLD, NEW),
        ("甲。\n\n乙。\n\n丙。", "甲。\n\n丙。"),
        ("甲。\n\n乙。", "甲。"),
        ("甲。", "甲。\n\n乙。"),
        ("乙。\n\n甲。", "甲。"),
        ("甲。", "乙。\n\n甲。"),
        ("甲。\n乙。\n丙。", "甲。\n乙改。\n新增。\n丙。"),
        ("- 一\n- 二\n- 三", "- 一\n- 三\n- 四"),
    ];
    for (old, new) in cases {
        let mut text = new.to_string();
        loop {
            let hunks = plan(old, &text);
            let Some(hunk) = hunks.last() else { break };
            let (reverted, _) = revert(hunk, old, &text);
            assert_ne!(reverted, text, "还原必须有进展：{old:?} → {new:?}");
            text = reverted;
        }
        assert_eq!(text, old, "{new:?} 逐块还原回 {old:?}");
    }
}

#[test]
fn the_cursor_lands_at_the_start_of_the_reverted_block() {
    let hunks = plan(OLD, NEW);
    let (text, cursor) = revert(&hunks[0], OLD, NEW);
    assert!(text[cursor..].starts_with("请于八月十日前报送。"), "{}", &text[cursor..]);
}

#[test]
fn an_own_line_goes_above_the_line_the_cursor_sits_on() {
    let mut text = "前一段。\n\n| 甲 | 乙 |\n| --- | --- |\n".to_string();
    let cursor = text.find("| 甲").expect("表格首行") + "| 甲".len();
    let inserted = splice_own_line(&mut text, cursor, "表：");
    assert_eq!(text, "前一段。\n\n表：\n| 甲 | 乙 |\n| --- | --- |\n");
    assert_eq!(&text[inserted.clone()], "表：");
    assert_eq!(&text[..inserted.end], "前一段。\n\n表：");
}

#[test]
fn an_own_line_does_not_pad_an_already_empty_line() {
    let mut text = "前一段。\n\n".to_string();
    let end = text.len();
    let inserted = splice_own_line(&mut text, end, "<!-- [正文] -->");
    assert_eq!(text, "前一段。\n\n<!-- [正文] -->\n");
    assert_eq!(&text[inserted.clone()], "<!-- [正文] -->");
    assert_eq!(inserted.end + 1, text.len());
}

#[test]
fn an_own_line_pads_only_when_the_line_above_has_text() {
    let mut text = "前一段。\n下一段。".to_string();
    let cursor = text.find("下一段").expect("第二段");
    let inserted = splice_own_line(&mut text, cursor, "表：");
    assert_eq!(text, "前一段。\n\n表：\n下一段。");
    assert_eq!(&text[inserted], "表：");

    let mut spaced = "前一段。\n\n下一段。".to_string();
    let cursor = spaced.find("下一段").expect("第二段");
    splice_own_line(&mut spaced, cursor, "表：");
    assert_eq!(spaced, "前一段。\n\n表：\n下一段。");
}

#[test]
fn an_own_line_clamps_a_stale_cursor() {
    let mut text = "正文".to_string();
    let inserted = splice_own_line(&mut text, 9_999, "表：");
    assert_eq!(text, "表：\n正文");
    assert_eq!(&text[inserted], "表：");
}

#[test]
fn regex_find_reports_invalid_patterns_and_expands_named_captures() {
    let text = "日期：2026-08-08";
    let matches = markdown_matches_mode(
        text,
        r"(?P<year>\d{4})-(?P<month>\d{2})-(?P<day>\d{2})",
        true,
        true,
    )
    .unwrap();
    assert_eq!(matches.len(), 1);
    assert_eq!(
        expanded_replacement(
            text,
            r"(?P<year>\d{4})-(?P<month>\d{2})-(?P<day>\d{2})",
            "$year年$month月$day日",
            true,
            true,
            &matches[0],
        ),
        "2026年08月08日"
    );
    assert!(markdown_matches_mode(text, "(", true, true).is_err());
}

#[test]
fn plain_replacement_is_taken_as_written() {
    let text = "甲处、乙处";
    let matches = markdown_matches(text, "乙处", true);
    assert_eq!(expanded_replacement(text, "乙处", "$0丙", true, false, &matches[0]), "$0丙");
    // A range that is not where the search from its start lands keeps the text as written.
    assert_eq!(expanded_replacement(text, "处", "[$0]", true, true, &(0..3)), "[$0]");
    assert_eq!(expanded_replacement(text, "处", "[$0]", true, true, &(3..6)), "[处]");
}

#[test]
fn bullet_pressed_twice_gives_back_the_line() {
    assert_eq!(toggle_bullet(&toggle_bullet("  一条")), "一条");
    assert_eq!(toggle_bullet(&toggle_bullet("")), "");
}

#[test]
fn heading_levels_replace_each_other() {
    let line = "  正文一段";
    for first in 1..=6u8 {
        for second in 0..=6u8 {
            assert_eq!(set_heading(&set_heading(line, first), second), set_heading(line, second));
        }
    }
    // Made body text first, a text that itself starts with `#` loses it.
    assert_eq!(set_heading(&set_heading("# #甲", 0), 2), "## 甲");
    assert_eq!(set_heading("# #甲", 2), "## #甲");
}

#[test]
fn bold_pressed_twice_gives_back_text_and_selection() {
    let text = "请于八月十日前报送";
    let range = text.find("八月").unwrap()..text.find("前").unwrap();
    let (bolded, selection) = toggle_bold(text, &range);
    let (back, restored) = toggle_bold(&bolded, &selection);
    assert_eq!(back, text);
    assert_eq!(restored, range);
}

#[test]
fn tidying_twice_changes_nothing_more() {
    for text in ["标题   \n\n\n\n正文\n\n\n", "", "\n\n甲\r\n\n\n乙  ", "  \n  \n", "甲\n"] {
        let once = tidy_blank_lines(text);
        assert_eq!(tidy_blank_lines(&once), once, "{text:?}");
    }
}

#[test]
fn same_alignment_again_removes_the_marker_and_other_one_switches_it() {
    let text = "前文。\n\n<!-- [居中] -->\n甲\n乙\n\n后文。";
    let on_second = "前文。\n\n<!-- [居中] -->\n甲\n".len();
    let (switched, _, edit) = toggle_align_region(text, &(on_second..on_second), LineAlign::Right);
    assert_eq!(edit, AlignEdit::Switched);
    assert_eq!(switched, "前文。\n\n<!-- [居右] -->\n甲\n乙\n\n后文。");
    let (removed, caret, edit) = toggle_align_region(&switched, &(on_second..on_second), LineAlign::Right);
    assert_eq!(edit, AlignEdit::Removed);
    assert_eq!(removed, "前文。\n\n甲\n乙\n\n后文。");
    assert_eq!(caret, "前文。\n\n甲\n乙".len());
}

#[test]
fn governing_marker_stops_at_a_blank_line() {
    let text = "<!-- [居中] -->\n甲\n\n乙";
    let ranges = line_ranges(text);
    assert_eq!(governing_align_marker(text, &ranges, 1), Some((0, LineAlign::Center)));
    assert_eq!(governing_align_marker(text, &ranges, 3), None);
}

#[test]
fn aligning_plain_lines_adds_a_marker_and_a_blank_line_below() {
    let text = "前文。\n\n甲\n乙\n后文。";
    let start = "前文。\n\n".len();
    let end = "前文。\n\n甲\n乙".len();
    let (added, caret, edit) = toggle_align_region(text, &(start..end), LineAlign::Center);
    assert_eq!(edit, AlignEdit::Added);
    assert_eq!(added, "前文。\n\n<!-- [居中] -->\n甲\n乙\n\n后文。");
    assert_eq!(caret, end + align_marker(LineAlign::Center).len() + 1);
    let (again, _, edit) = toggle_align_region(&added, &(start..start), LineAlign::Center);
    assert_eq!(edit, AlignEdit::Removed);
    assert_eq!(again, "前文。\n\n甲\n乙\n\n后文。");
}

#[test]
fn a_marker_on_the_last_line_goes_with_the_break_before_it() {
    let text = "甲\n<!-- [居右] -->";
    let at = text.len();
    let (removed, caret, edit) = toggle_align_region(text, &(at..at), LineAlign::Right);
    assert_eq!(edit, AlignEdit::Removed);
    assert_eq!(removed, "甲");
    assert_eq!(caret, "甲".len());
}

#[test]
fn normalizing_twice_changes_nothing() {
    let raw = "\r\n  \r\n   标题  \r\n\r\n\r\n正文一\t\r\n\r\n\r\n\r\n";
    let once = normalize(raw);
    assert_eq!(once, "标题\n\n正文一");
    assert_eq!(normalize(&once), once);
}

#[test]
fn marks_the_selected_lines_and_closes_the_region_before_following_text() {
    let text = "前文。\n居中甲\n居中乙\n后文。";
    let start = "前文。\n".len();
    let end = "前文。\n居中甲\n居中".len();
    let (updated, caret, edit) = toggle_align_region(text, &(start..end), LineAlign::Center);
    assert_eq!(edit, AlignEdit::Added);
    assert_eq!(updated, "前文。\n<!-- [居中] -->\n居中甲\n居中乙\n\n后文。");
    assert_eq!(caret, "前文。\n<!-- [居中] -->\n居中甲\n居中乙".len());
}

#[test]
fn no_extra_blank_line_when_the_region_already_ends() {
    let text = "居右一行\n\n后文。";
    let (updated, _, _) = toggle_align_region(text, &(0..0), LineAlign::Right);
    assert_eq!(updated, "<!-- [居右] -->\n居右一行\n\n后文。");
    let (updated, _, _) = toggle_align_region("末行", &(0..0), LineAlign::Right);
    assert_eq!(updated, "<!-- [居右] -->\n末行");
}

#[test]
fn hunks_come_with_their_diff_and_revert_one_by_one() {
    let old = "甲。\n乙。\n丙。";
    let mut text = "甲。\n乙改。\n新增。\n丙。".to_string();
    loop {
        let (_, hunks) = diff_hunks(old, &text);
        let Some(hunk) = hunks.last() else { break };
        let (reverted, _) = revert(hunk, old, &text);
        assert_ne!(reverted, text);
        text = reverted;
    }
    assert_eq!(text, old);
}

#[test]
fn find_steps_go_round_and_replace_moves_on() {
    let mut text = "甲乙甲丙甲".to_string();
    let matches = markdown_matches(&text, "甲", true);
    let mut current = 0usize;
    let back = run_find_action(&mut text, &mut current, FindAction::Previous, &matches, "甲", "丁", true, false);
    assert_eq!((current, back), (2, Some(12..15)));
    let next = run_find_action(&mut text, &mut current, FindAction::Next, &matches, "甲", "丁", true, false);
    assert_eq!((current, next), (0, Some(0..3)));
    current = 1;
    let after = run_find_action(&mut text, &mut current, FindAction::Replace, &matches, "甲", "丁", true, false);
    assert_eq!(text, "甲乙丁丙甲");
    assert_eq!((current, after), (1, Some(12..15)));
    let empty: Vec<std::ops::Range<usize>> = Vec::new();
    assert_eq!(run_find_action(&mut text, &mut current, FindAction::Next, &empty, "甲", "丁", true, false), None);
    assert_eq!(current, 1);
}

#[test]
fn replace_all_replaces_every_match_plain_or_by_regex() {
    let mut text = "a1 b22 c333".to_string();
    let plain = markdown_matches(&text, "2", true);
    let mut current = 1usize;
    assert_eq!(run_find_action(&mut text, &mut current, FindAction::ReplaceAll, &plain, "2", "[两]", true, false), None);
    assert_eq!((text.as_str(), current), ("a1 b[两][两] c333", 0));
    let regex = markdown_matches_mode(&text, r"(\d+)", true, true).unwrap();
    run_find_action(&mut text, &mut current, FindAction::ReplaceAll, &regex, r"(\d+)", "<$1>", true, true);
    assert_eq!(text, "a<1> b[两][两] c<333>");
    let mut kept = "x(".to_string();
    let one = vec![0..1];
    run_find_action(&mut kept, &mut current, FindAction::ReplaceAll, &one, "(", "y", true, true);
    assert_eq!(kept, "x(");
}
