use pipeline_table::{
    maybe_truncate_columns, max_per_column, merge_descriptors, values_to_entries, CellStyle,
    ColumnSpace, Entries,
    TableView, Value,
};

fn text(s: &str) -> Value {
    Value::String(s.to_string())
}

fn record(fields: &[(&str, &str)]) -> Value {
    Value::Row(fields.iter().map(|(k, v)| (k.to_string(), text(v))).collect())
}

#[test]
fn empty_list_has_no_layout() {
    assert!(TableView::from_list_with_width(&[], 0, 80).is_none());
    assert!(TableView::from_list(&[], 0).is_none());
}

#[test]
fn non_empty_list_has_a_layout() {
    assert!(TableView::from_list_with_width(&[text("x")], 0, 80).is_some());
    assert!(TableView::from_list(&[text("x")], 0).is_some());
}

#[test]
fn header_union_keeps_first_seen_order() {
    let values = vec![record(&[("a", "1"), ("b", "2")]), record(&[("b", "3"), ("c", "4")])];
    assert_eq!(merge_descriptors(&values), vec!["a", "b", "c"]);
    let view = TableView::from_list_with_width(&values, 0, 80).unwrap();
    assert_eq!(view.headers, vec!["#", "a", "b", "c"]);
    assert_eq!(view.entries[1][1].0, "");
    assert_eq!(view.entries[1][3].0, "4");
}

#[test]
fn scalars_add_one_anonymous_column() {
    let values = vec![text("x"), record(&[("a", "1")]), Value::Bool(true)];
    assert_eq!(merge_descriptors(&values), vec!["", "a"]);
}

#[test]
fn wide_tables_are_truncated_with_an_ellipsis() {
    let names: Vec<String> = (0..15).map(|i| format!("c{}", i)).collect();
    let row = || Value::Row(names.iter().map(|n| (n.clone(), text("v"))).collect());
    let values = vec![row(), row()];
    let view = TableView::from_list_with_width(&values, 0, 100).unwrap();
    assert_eq!(view.headers.len(), 11);
    assert_eq!(view.headers[10], "...");
    for row in &view.entries {
        assert_eq!(row.len(), 11);
        assert_eq!(row[10], ("...".to_string(), CellStyle::Ellipsis));
    }
    assert_eq!(view.headers[9], "c8");
}

#[test]
fn index_column_counts_from_the_offset() {
    let values = vec![text("a"), record(&[("k", "v")]), Value::Nothing];
    let view = TableView::from_list_with_width(&values, 1000, 80).unwrap();
    for (i, row) in view.entries.iter().enumerate() {
        assert_eq!(row[0], ((1000 + i).to_string(), CellStyle::Index));
    }
    assert_eq!(view.entries[0][0].0, "1000");
}

#[test]
fn scalar_lists_hide_the_header_row() {
    let view = TableView::from_list_with_width(&[text("a"), text("b")], 0, 80).unwrap();
    assert_eq!(view.headers, vec!["#", ""]);
    assert!(!view.header_visible());
}

#[test]
fn one_record_shows_the_header_row() {
    let view = TableView::from_list_with_width(&[record(&[("name", "x")])], 0, 80).unwrap();
    assert!(view.header_visible());
}

#[test]
fn cells_show_display_text() {
    let nested = Value::Row(vec![
        ("n".to_string(), Value::List(vec![text("a"), Value::Bool(false)])),
        ("m".to_string(), record(&[("x", "1"), ("y", "2")])),
    ]);
    assert_eq!(nested.display(), "{n: [a, false], m: {x: 1, y: 2}}");
    assert_eq!(Value::Nothing.display(), "");
    assert_eq!(Value::Bool(true).display(), "true");
    let view = TableView::from_list_with_width(&[nested], 0, 80).unwrap();
    assert_eq!(view.entries[0][1].0, "[a, false]");
    assert_eq!(view.entries[0][2].0, "{x: 1, y: 2}");
}

#[test]
fn narrow_width_is_raised_to_twenty() {
    let values = vec![record(&[("a", "1")])];
    let a = TableView::from_list_with_width(&values, 0, 3).unwrap();
    let b = TableView::from_list_with_width(&values, 0, 20).unwrap();
    assert_eq!(a.headers, b.headers);
    assert_eq!(a.entries, b.entries);
}

#[test]
fn long_cells_are_wrapped() {
    let long = "lorem ipsum dolor sit amet consectetur adipiscing elit sed do eiusmod tempor";
    let values = vec![record(&[("a", "x"), ("text", long)])];
    let view = TableView::from_list_with_width(&values, 0, 40).unwrap();
    let cell = &view.entries[0][2].0;
    assert_ne!(cell, long);
    assert!(cell.contains('\n'));
    assert_eq!(cell.replace('\n', " "), long);
    assert_eq!(view.entries[0][1].0, "x");
}

#[test]
fn column_space_two_passes() {
    // Widths 3, 30, 8 in a budget of 40: the even share is (40 - 6) / 3 = 11.
    let widths = vec![3usize, 30, 8];
    let first = ColumnSpace::measure(&widths, 11, 3);
    assert_eq!(first.num_overages, 1);
    assert_eq!(first.underage_sum, 3 + 3 + 1 + 8);
    assert_eq!(first.overage_separator_sum, 3);
    let limit = first.max_width(40);
    assert_eq!(limit, (40 - 1 - 15 - 3) / 1);
    let second = first.fix_almost_column_width(&widths, 11, limit, 3);
    assert_eq!(second.num_overages, 1);
    assert_eq!(second.underage_sum, 15);
    assert_eq!(second.max_width(40), 21);
}

#[test]
fn column_space_reclassifies_in_second_pass() {
    let widths = vec![5usize, 13, 40];
    let first = ColumnSpace::measure(&widths, 11, 3);
    assert_eq!(first.num_overages, 2);
    let limit = first.max_width(40);
    assert_eq!(limit, 13);
    let second = first.fix_almost_column_width(&widths, 11, limit, 3);
    assert_eq!(second.num_overages, 1);
    assert_eq!(second.underage_sum, 9 + 13 + 3);
    assert_eq!(second.overage_separator_sum, 0);
    assert_eq!(second.max_width(40), 14);
}

#[test]
fn no_overage_gives_unbounded_width() {
    let widths = vec![1usize, 2];
    let space = ColumnSpace::measure(&widths, 10, 2);
    assert_eq!(space.num_overages, 0);
    assert_eq!(space.max_width(20), 99999);
}

#[test]
fn natural_widths_count_characters() {
    let headers = vec!["#".to_string(), "name".to_string()];
    let entries: Entries = vec![
        vec![("0".to_string(), CellStyle::Index), ("héllo wörld".to_string(), CellStyle::Plain)],
        vec![("10".to_string(), CellStyle::Index), ("ab".to_string(), CellStyle::Plain)],
    ];
    assert_eq!(max_per_column(&headers, &entries), vec![2, 11]);
}

#[test]
fn truncation_only_when_too_many_columns() {
    let mut headers: Vec<String> = vec!["a".into(), "b".into(), "c".into()];
    let mut entries: Entries = vec![vec![
        ("1".to_string(), CellStyle::Plain),
        ("2".to_string(), CellStyle::Plain),
        ("3".to_string(), CellStyle::Plain),
    ]];
    maybe_truncate_columns(&mut headers, &mut entries, 30);
    assert_eq!(headers.len(), 3);
    maybe_truncate_columns(&mut headers, &mut entries, 20);
    assert_eq!(headers, vec!["a", "b", "..."]);
    assert_eq!(entries[0][2], ("...".to_string(), CellStyle::Ellipsis));
    assert_eq!(entries[0][1].0, "2");
}

#[test]
fn record_without_fields_adds_no_header() {
    let values = vec![Value::Row(vec![])];
    assert!(merge_descriptors(&values).is_empty());
    let mixed = vec![Value::Row(vec![]), record(&[("a", "1")])];
    assert_eq!(merge_descriptors(&mixed), vec!["a"]);
}

#[test]
fn empty_header_list_gets_the_anonymous_header() {
    let mut headers: Vec<String> = vec![];
    let entries = values_to_entries(&[text("x")], &mut headers, 3);
    assert_eq!(headers, vec![""]);
    assert_eq!(entries[0], vec![("3".to_string(), CellStyle::Index), ("x".to_string(), CellStyle::Plain)]);
    let view = TableView::from_list_with_width(&[Value::Row(vec![])], 0, 80).unwrap();
    assert_eq!(view.headers, vec!["#", ""]);
    assert_eq!(view.entries[0].len(), 2);
    assert!(!view.header_visible());
}

#[test]
fn named_headers_keep_their_list() {
    let mut headers: Vec<String> = vec!["a".to_string()];
    let entries = values_to_entries(&[record(&[("a", "1")]), text("s")], &mut headers, 0);
    assert_eq!(headers, vec!["a"]);
    assert_eq!(entries[0][1].0, "1");
    assert_eq!(entries[1][1].0, "");
}

#[test]
fn short_rows_are_truncated_too() {
    let mut headers: Vec<String> = vec!["a".into(), "b".into(), "c".into()];
    let mut entries: Entries = vec![vec![("1".to_string(), CellStyle::Plain)]];
    maybe_truncate_columns(&mut headers, &mut entries, 20);
    assert_eq!(headers, vec!["a", "b", "..."]);
    assert_eq!(entries[0], vec![("1".to_string(), CellStyle::Plain), ("...".to_string(), CellStyle::Ellipsis)]);
}

#[test]
fn long_words_are_broken_at_the_width() {
    let word = "abcdefghijklmnopqrstuvwxyzabcdefghijklmnopqrstuvwxyz";
    let cell = format!("{} tail", word);
    let values = vec![record(&[("a", "x"), ("text", &cell)])];
    // Columns #, a, text in 40: the even share is 11, and the text column gets 30.
    let view = TableView::from_list_with_width(&values, 0, 40).unwrap();
    let wrapped = &view.entries[0][2].0;
    assert!(wrapped.lines().count() >= 2);
    for line in wrapped.lines() {
        assert!(line.chars().count() <= 30);
    }
    let squeeze = |t: &str| t.chars().filter(|c| !c.is_whitespace()).collect::<String>();
    assert_eq!(squeeze(wrapped), squeeze(&cell));
}

#[test]
fn multibyte_text_wraps_without_panic() {
    let cell = "abcdefg éééé ééééé abcdefghijklmnopqrstuvwxyz ééé";
    let values = vec![record(&[("t", cell)])];
    let view = TableView::from_list_with_width(&values, 0, 20).unwrap();
    let wrapped = &view.entries[0][1].0;
    assert_ne!(wrapped, cell);
    let squeeze = |t: &str| t.chars().filter(|c| !c.is_whitespace()).collect::<String>();
    assert_eq!(squeeze(wrapped), squeeze(cell));
}

#[test]
fn row_numbers_are_never_wrapped() {
    let view = TableView::from_list_with_width(&[text("a")], 1_000_000_000_000_000, 20).unwrap();
    assert_eq!(view.entries[0][0], ("1000000000000000".to_string(), CellStyle::Index));
    assert_eq!(view.headers[0], "#");
}

#[test]
fn ellipsis_column_stays_literal() {
    let wide = "x".repeat(60);
    let values = vec![record(&[("a", "1"), ("b", &wide), ("c", "3")])];
    let view = TableView::from_list_with_width(&values, 0, 20).unwrap();
    assert_eq!(view.headers.len(), 3);
    assert_eq!(view.headers[2], "...");
    assert_eq!(view.entries[0][2], ("...".to_string(), CellStyle::Ellipsis));
}

#[test]
fn large_row_numbers_in_decimal() {
    let view = TableView::from_list_with_width(&[text("a"), text("b")], 1234567, 80).unwrap();
    assert_eq!(view.entries[0][0].0, "1234567");
    assert_eq!(view.entries[1][0].0, "1234568");
    let zero = TableView::from_list_with_width(&[text("a")], 0, 80).unwrap();
    assert_eq!(zero.entries[0][0].0, "0");
}
