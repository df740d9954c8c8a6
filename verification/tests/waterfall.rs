use trace_top::store::Store;
use trace_top::types::NormalizedSpan;

fn span(id: &str, parent: Option<&str>, name: &str, start: u64, end: u64) -> NormalizedSpan {
    NormalizedSpan {
        trace_id: "t".to_string(),
        span_id: id.to_string(),
        parent_span_id: parent.map(|p| p.to_string()),
        name: name.to_string(),
        start_unix_nano: start,
        end_unix_nano: end,
        attributes: vec![("k".to_string(), id.to_string())],
    }
}

fn rows(store: &Store, selected: Option<&str>) -> (Vec<(String, usize)>, Option<String>) {
    let sel = selected.map(|s| s.to_string());
    let d = store.trace_detail(&"t".to_string(), sel.as_ref()).unwrap();
    (
        d.rows.iter().map(|r| (r.span_id.clone(), r.depth)).collect(),
        d.selected_span.map(|s| s.span_id),
    )
}

#[test]
fn waterfall_nests_children_by_start() {
    let mut store = Store::new();
    store.insert_spans(vec![
        span("c2", Some("r"), "second", 30, 40),
        span("r", None, "root", 0, 100),
        span("c1", Some("r"), "first", 10, 20),
        span("g", Some("c1"), "grandchild", 11, 12),
    ]);
    let (r, sel) = rows(&store, None);
    assert_eq!(
        r,
        vec![
            ("r".to_string(), 0),
            ("c1".to_string(), 1),
            ("g".to_string(), 2),
            ("c2".to_string(), 1)
        ]
    );
    assert_eq!(sel, Some("r".to_string()));
}

#[test]
fn waterfall_lists_unreached_spans_last_at_depth_zero() {
    let mut store = Store::new();
    store.insert_spans(vec![
        span("o", Some("missing"), "orphan", 5, 6),
        span("r", None, "root", 0, 100),
        span("x", Some("y"), "cycle x", 1, 2),
        span("y", Some("x"), "cycle y", 3, 4),
    ]);
    let (r, _) = rows(&store, Some("y"));
    assert_eq!(
        r,
        vec![
            ("r".to_string(), 0),
            ("o".to_string(), 0),
            ("x".to_string(), 0),
            ("y".to_string(), 0)
        ]
    );
}

#[test]
fn waterfall_shows_every_span_once() {
    let mut store = Store::new();
    store.insert_spans(vec![
        span("a", None, "a", 3, 9),
        span("b", Some("a"), "b", 4, 5),
        span("c", Some("a"), "c", 4, 6),
        span("d", None, "d", 1, 2),
        span("e", Some("e"), "self parent", 7, 8),
    ]);
    let (r, _) = rows(&store, None);
    let mut ids: Vec<String> = r.iter().map(|(id, _)| id.clone()).collect();
    assert_eq!(ids.len(), 5);
    ids.sort();
    assert_eq!(ids, vec!["a", "b", "c", "d", "e"]);
    // roots by start time, equal starts in arrival order
    assert_eq!(r[0], ("d".to_string(), 0));
    assert_eq!(r[1], ("a".to_string(), 0));
    assert_eq!(r[2], ("b".to_string(), 1));
    assert_eq!(r[3], ("c".to_string(), 1));
}

#[test]
fn detail_selects_requested_span_else_first_row() {
    let mut store = Store::new();
    store.insert_spans(vec![span("r", None, "root", 0, 10), span("c", Some("r"), "child", 1, 2)]);
    let d = store.trace_detail(&"t".to_string(), Some(&"c".to_string())).unwrap();
    let s = d.selected_span.unwrap();
    assert_eq!(s.span_id, "c");
    assert_eq!(s.name, "child");
    assert_eq!(s.start_unix_nano, 1);
    assert_eq!(s.end_unix_nano, 2);
    assert_eq!(s.attributes, vec![("k".to_string(), "c".to_string())]);
    let (_, sel) = rows(&store, Some("nope"));
    assert_eq!(sel, Some("r".to_string()));
}

#[test]
fn detail_of_unknown_trace_is_none() {
    let store = Store::new();
    assert!(store.trace_detail(&"t".to_string(), None).is_none());
}
