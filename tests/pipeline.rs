use pipeline_table::{
    contains, paginate, source_record, ActionGate, AdapterAction, ControlSignal, EntryKind,
    Paginator, StageOutput, Value, WherePredicate,
};

fn record(fields: &[(&str, &str)]) -> Value {
    Value::Row(fields.iter().map(|(k, v)| (k.to_string(), Value::String(v.to_string()))).collect())
}

#[test]
fn homogeneous_stream_pages_by_size() {
    let values: Vec<Value> = (0..2500).map(|i| record(&[("a", &i.to_string())])).collect();
    let pages = paginate(values);
    let sizes: Vec<usize> = pages.iter().map(|p| p.values.len()).collect();
    let offsets: Vec<usize> = pages.iter().map(|p| p.offset).collect();
    assert_eq!(sizes, vec![1000, 1000, 500]);
    assert_eq!(offsets, vec![0, 1000, 2000]);
}

#[test]
fn schema_change_starts_a_new_page() {
    let mut values: Vec<Value> = (0..500).map(|_| record(&[("a", "x")])).collect();
    values.push(record(&[("a", "y"), ("b", "z")]));
    for _ in 0..20 {
        values.push(record(&[("a", "w")]));
    }
    let pages = paginate(values);
    assert_eq!(pages.len(), 3);
    assert_eq!(pages[0].values.len(), 500);
    assert_eq!(pages[0].values[0].column_names(), vec!["a"]);
    assert_eq!(pages[1].values[0].column_names(), vec!["a", "b"]);
    assert_eq!(pages[1].values.len(), 1);
    assert_eq!(pages[1].offset, 500);
    assert_eq!(pages[2].values.len(), 20);
    assert_eq!(pages[2].offset, 501);
}

#[test]
fn empty_stream_has_no_pages() {
    assert!(paginate(vec![]).is_empty());
}

#[test]
fn slow_page_is_flushed_at_a_check_point() {
    let mut pager = Paginator::new();
    for i in 0..99 {
        assert!(pager.feed(Some(record(&[("a", "x")])), i == 50).is_none());
    }
    let page = pager.feed(Some(record(&[("a", "x")])), true).unwrap();
    assert_eq!(page.values.len(), 100);
    assert_eq!(page.offset, 0);
    assert!(pager.feed(Some(record(&[("a", "x")])), false).is_none());
    let last = pager.feed(None, false).unwrap();
    assert_eq!(last.values.len(), 1);
    assert_eq!(last.offset, 100);
    assert!(!pager.can_accept());
}

#[test]
fn cancellation_is_remembered() {
    let mut gate = ActionGate::new();
    assert!(matches!(gate.before_pull(false), AdapterAction::Pull));
    assert!(matches!(gate.before_pull(true), AdapterAction::Cancel));
    assert!(matches!(gate.before_pull(false), AdapterAction::Cancel));
}

#[test]
fn adapter_routes_outputs() {
    let gate = ActionGate::new();
    assert!(matches!(gate.after_pull(None), AdapterAction::Exhausted));
    assert!(matches!(
        gate.after_pull(Some(StageOutput::Action(ControlSignal::Increment))),
        AdapterAction::Increment
    ));
    assert!(matches!(
        gate.after_pull(Some(StageOutput::Action(ControlSignal::Announce))),
        AdapterAction::Announce
    ));
    match gate.after_pull(Some(StageOutput::Value(Value::Bool(true)))) {
        AdapterAction::Deliver(Value::Bool(b)) => assert!(b),
        _ => panic!("expected the value"),
    }
}

#[test]
fn filter_drops_thirdparty_paths() {
    let pred = WherePredicate::excluding("name".to_string(), "thirdparty".to_string());
    let keep = record(&[("name", "src/foo.rs")]);
    let drop = record(&[("name", "thirdparty/bar.rs")]);
    assert!(pred.accepts(&keep));
    assert!(!pred.accepts(&drop));
}

#[test]
fn filter_drops_scalars_and_missing_fields() {
    let pred = WherePredicate::excluding("name".to_string(), "x".to_string());
    assert!(!pred.accepts(&Value::String("abc".to_string())));
    assert!(!pred.accepts(&record(&[("other", "abc")])));
    let not_text = Value::Row(vec![("name".to_string(), Value::Nothing)]);
    assert!(!pred.accepts(&not_text));
    let keep_matching = WherePredicate { field: "name".to_string(), substring: "b".to_string(), must_contain: true };
    assert!(keep_matching.accepts(&record(&[("name", "abc")])));
    assert!(!keep_matching.accepts(&record(&[("name", "xyz")])));
}

#[test]
fn substring_search() {
    let s = |x: &str| x.to_string();
    assert!(contains(&s("thirdparty/x"), &s("thirdparty")));
    assert!(contains(&s("a/thirdparty"), &s("party")));
    assert!(contains(&s("abc"), &s("")));
    assert!(!contains(&s("ab"), &s("abc")));
    assert!(!contains(&s("aab"), &s("abb")));
}

#[test]
fn source_records_have_name_and_type() {
    let dir = source_record("src".to_string(), EntryKind::Dir);
    assert_eq!(dir.column_names(), vec!["name", "type"]);
    assert_eq!(dir.display(), "{name: src, type: Dir}");
    let file = source_record("a.rs".to_string(), EntryKind::File);
    assert_eq!(file.display(), "{name: a.rs, type: File}");
    let other = source_record("p".to_string(), EntryKind::Other);
    assert_eq!(other.display(), "{name: p, type: }");
}

#[test]
fn insert_replaces_in_place() {
    let mut row = Value::new_row();
    row.insert_field("a".to_string(), Value::Bool(true));
    row.insert_field("b".to_string(), Value::Bool(true));
    row.insert_field("a".to_string(), Value::Bool(false));
    assert_eq!(row.column_names(), vec!["a", "b"]);
    assert_eq!(row.display(), "{a: false, b: true}");
}

#[test]
fn same_columns_compares_names_in_order() {
    let a = record(&[("x", "1"), ("y", "2")]);
    let b = record(&[("x", "3"), ("y", "4")]);
    let c = record(&[("y", "1"), ("x", "2")]);
    assert!(a.same_columns(&b));
    assert!(!a.same_columns(&c));
    assert!(Value::Nothing.same_columns(&Value::Bool(true)));
    assert!(!a.same_columns(&Value::Nothing));
}
