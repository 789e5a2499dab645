use gongwen::markdown::{is_table_separator_line, table_column_count};
use gongwen::table::{
    apply_table_op, blank_table, delete_table_column, delete_table_row, effective_span, extend_span,
    insert_table_column, insert_table_row, render_merged_table, render_table, table_at, table_cursor, ColumnAlign,
    TableEdit, TableOp, TableSpan,
};

#[test]
fn table_at_locates_cursor_row_and_column() {
    let text = "前言\n\n| 序号 | 名称 |\n| --- | :---: |\n| 1 | 甲 |\n| 2 | 乙 |\n\n后记";
    let at = |needle: &str| text.find(needle).expect("片段存在");

    let table = table_at(text, at("甲")).expect("光标在表格里");
    assert_eq!(table.rows.len(), 3, "表头 + 两行数据，分隔行不算");
    assert_eq!(table.row, 1);
    assert_eq!(table.column, 1);
    assert_eq!(table.aligns, vec![ColumnAlign::Auto, ColumnAlign::Center]);

    let table = table_at(text, at(":---:")).expect("分隔行也在表格里");
    assert_eq!(table.row, 0);
    assert_eq!(table.column, 1);

    assert!(table_at(text, at("前言")).is_none());
    assert!(table_at(text, at("后记")).is_none());
}

#[test]
fn table_at_rejects_pipes_without_a_separator_row() {
    let text = "| 甲 | 乙 |\n| 丙 | 丁 |";
    assert!(table_at(text, 3).is_none());
}

#[test]
fn render_table_pads_by_display_width() {
    let rows = vec![
        vec!["序号".to_string(), "名称".to_string()],
        vec!["1".to_string(), "甲单位".to_string()],
    ];
    let rendered = render_table(&rows, &[ColumnAlign::Auto, ColumnAlign::Center]);
    assert_eq!(
        rendered,
        "| 序号 | 名称   |\n| ---- | :----: |\n| 1    | 甲单位 |"
    );
    let table = table_at(&rendered, 3).expect("是一张表格");
    assert_eq!(table.rows, rows);
    assert_eq!(table.aligns, vec![ColumnAlign::Auto, ColumnAlign::Center]);
}

#[test]
fn narrow_columns_still_render_a_valid_separator_row() {
    for align in [
        ColumnAlign::Auto,
        ColumnAlign::Left,
        ColumnAlign::Center,
        ColumnAlign::Right,
    ] {
        let rows = vec![
            vec!["甲".to_string(), "乙".to_string()],
            vec!["1".to_string(), "2".to_string()],
        ];
        let rendered = render_table(&rows, &[align, ColumnAlign::Auto]);
        let separator = rendered.lines().nth(1).expect("有分隔行");
        assert!(
            is_table_separator_line(separator),
            "{align:?} 的分隔行不合法：{separator}"
        );
        let table = table_at(&rendered, 0).expect("是一张表格");
        assert_eq!(table.aligns, vec![align, ColumnAlign::Auto]);
    }
}

#[test]
fn blank_table_never_has_a_single_column() {
    let table = blank_table(2, 1);
    assert_eq!(table_column_count(table.lines().next().expect("有表头")), 2);
    assert!(table_at(&table, 0).is_some());
}

#[test]
fn blank_table_has_a_header_and_separator() {
    let table = blank_table(3, 2);
    let lines = table.lines().collect::<Vec<_>>();
    assert_eq!(lines.len(), 4, "3 行 + 1 条分隔行");
    assert!(is_table_separator_line(lines[1]), "{}", lines[1]);
    assert_eq!(table_column_count(lines[0]), 2);
    assert_eq!(table_at(&table, 0).expect("是一张表格").rows.len(), 3);
}

fn editable_table() -> TableEdit {
    TableEdit {
        rows: vec![
            vec!["类别".into(), "项目".into(), "说明".into()],
            vec!["综合".into(), String::new(), String::new()],
            vec![String::new(), String::new(), String::new()],
        ],
        aligns: vec![ColumnAlign::Auto; 3],
        spans: Vec::new(),
        span: 0..0,
        row: 1,
        column: 0,
    }
}

#[test]
fn merge_survives_insert_and_delete_inside_span() {
    let mut table = editable_table();
    let cell = effective_span(&table.spans, 1, 0);
    extend_span(&mut table, cell, false).unwrap();
    let cell = effective_span(&table.spans, 1, 0);
    extend_span(&mut table, cell, true).unwrap();
    assert_eq!(
        table.spans[0],
        TableSpan {
            row: 1,
            column: 0,
            row_span: 2,
            column_span: 2,
        }
    );

    insert_table_column(&mut table, 1);
    insert_table_row(&mut table, 2);
    assert_eq!(table.spans[0].column_span, 3);
    assert_eq!(table.spans[0].row_span, 3);

    delete_table_column(&mut table, 1);
    delete_table_row(&mut table, 2);
    assert_eq!(table.spans[0].column_span, 2);
    assert_eq!(table.spans[0].row_span, 2);
    assert_eq!(table.rows[1][0], "综合");
}

#[test]
fn merge_refuses_content_and_header_body_crossing() {
    let mut table = editable_table();
    table.rows[1][1] = "已有内容".into();
    let cell = effective_span(&table.spans, 1, 0);
    assert!(extend_span(&mut table, cell, false).is_err());

    let header = effective_span(&table.spans, 0, 0);
    assert_eq!(
        extend_span(&mut table, header, true),
        Err("表头不能与正文纵向合并。")
    );
}

#[test]
fn merged_cells_render_as_pipes_and_carets_and_read_back() {
    let rows = vec![
        vec!["类别".to_string(), "项目".to_string(), "说明".to_string()],
        vec!["综合".to_string(), String::new(), "甲".to_string()],
        vec![String::new(), String::new(), "乙".to_string()],
    ];
    let spans = [TableSpan {
        row: 1,
        column: 0,
        row_span: 2,
        column_span: 2,
    }];
    let aligns = [ColumnAlign::Auto; 3];
    let rendered = render_merged_table(&rows, &aligns, &spans);
    assert_eq!(
        rendered,
        "| 类别 | 项目 | 说明 |\n| ---- | ---- | ---- |\n| 综合        || 甲   |\n| ^^          || 乙   |"
    );
    let table = table_at(&rendered, 0).expect("是一张表格");
    assert_eq!(table.spans, spans.to_vec());
    assert_eq!(table.rows, rows);
}

#[test]
fn table_buttons_move_the_cursor_cell_and_report() {
    let mut table = editable_table();
    assert_eq!(apply_table_op(&mut table, TableOp::InsertRowAbove).unwrap(), "已插入一行。");
    assert_eq!(table.rows.len(), 4);
    assert_eq!(table.row, 1);
    table.row = 0;
    assert_eq!(apply_table_op(&mut table, TableOp::InsertRowAbove).unwrap(), "已插入一行。");
    assert_eq!(table.row, 1, "表头之上插不了数据行");
    table.row = 0;
    assert_eq!(
        apply_table_op(&mut table, TableOp::DeleteRow),
        Err("表头删不得；要去掉整张表就把那几行选中删掉。")
    );
    table.row = table.rows.len() - 1;
    assert_eq!(apply_table_op(&mut table, TableOp::DeleteRow).unwrap(), "已删除一行。");
    assert_eq!(table.row, table.rows.len() - 1);
    assert_eq!(apply_table_op(&mut table, TableOp::DeleteColumn).unwrap(), "已删除一列。");
    assert_eq!(table.aligns.len(), 2);
    assert_eq!(apply_table_op(&mut table, TableOp::DeleteColumn), Err("表格至少要两列，删不了。"));
    table.column = 1;
    assert_eq!(
        apply_table_op(&mut table, TableOp::Align(ColumnAlign::Center)).unwrap(),
        "第 2 列已设为居中。"
    );
    assert_eq!(table.aligns[1], ColumnAlign::Center);
    assert_eq!(apply_table_op(&mut table, TableOp::SplitCell), Err("当前单元格没有合并。"));
}

#[test]
fn split_undoes_a_merge() {
    let mut table = editable_table();
    table.row = 2;
    assert_eq!(apply_table_op(&mut table, TableOp::MergeRight).unwrap(), "已向右合并一个单元格。");
    assert_eq!(table.spans.len(), 1);
    table.column = 1;
    assert_eq!(apply_table_op(&mut table, TableOp::SplitCell).unwrap(), "已拆分单元格。");
    assert!(table.spans.is_empty());
    assert_eq!((table.row, table.column), (2, 0));
}

#[test]
fn the_cursor_lands_in_the_first_cell_of_its_row() {
    let rendered = "| 序号 | 名称   |\n| ---- | :----: |\n| 1    | 甲单位 |";
    assert_eq!(table_cursor(rendered, 0), 2);
    let second = rendered.find("| 1").unwrap();
    assert_eq!(table_cursor(rendered, 1), second + 2);
    assert_eq!(table_cursor(rendered, 7), rendered.len() + 3);
}

#[test]
fn a_rendered_table_reads_back_from_any_line() {
    let rows = vec![
        vec!["甲".to_string(), "^^".to_string(), String::new()],
        vec!["1".to_string(), "合计 ".trim().to_string(), "2".to_string()],
    ];
    let aligns = [ColumnAlign::Right, ColumnAlign::Left, ColumnAlign::Center];
    let rendered = render_table(&rows, &aligns);
    for cursor in 0..=rendered.len() {
        if !rendered.is_char_boundary(cursor) {
            continue;
        }
        let table = table_at(&rendered, cursor).expect("是一张表格");
        assert_eq!(table.rows, rows);
        assert_eq!(table.aligns, aligns.to_vec());
        assert!(table.spans.is_empty());
    }
}
