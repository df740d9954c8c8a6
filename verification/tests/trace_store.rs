use trace_top::store::{Store, TraceListQuery};
use trace_top::types::{NormalizedSpan, RawAttribute, RawSpan, Trace};

fn span(trace: &str, id: &str, parent: Option<&str>, name: &str, start: u64, end: u64) -> NormalizedSpan {
    NormalizedSpan {
        trace_id: trace.to_string(),
        span_id: id.to_string(),
        parent_span_id: parent.map(|p| p.to_string()),
        name: name.to_string(),
        start_unix_nano: start,
        end_unix_nano: end,
        attributes: Vec::new(),
    }
}

#[test]
fn raw_span_ids_become_lowercase_hex() {
    let raw = RawSpan {
        trace_id: vec![0x01, 0xab, 0xff, 0x10],
        span_id: vec![0x00, 0x9c],
        parent_span_id: vec![0xde, 0xad],
        name: "GET /".to_string(),
        start_time_unix_nano: 5,
        end_time_unix_nano: 9,
        attributes: Vec::new(),
    };
    let s = NormalizedSpan::from_raw(raw);
    assert_eq!(s.trace_id, "01abff10");
    assert_eq!(s.span_id, "009c");
    assert_eq!(s.parent_span_id, Some("dead".to_string()));
    assert_eq!(s.name, "GET /");
    assert_eq!(s.start_unix_nano, 5);
    assert_eq!(s.end_unix_nano, 9);
}

#[test]
fn raw_span_without_parent_has_none() {
    let raw = RawSpan {
        trace_id: vec![1],
        span_id: vec![2],
        parent_span_id: Vec::new(),
        name: String::new(),
        start_time_unix_nano: 0,
        end_time_unix_nano: 0,
        attributes: Vec::new(),
    };
    let s = NormalizedSpan::from_raw(raw);
    assert_eq!(s.parent_span_id, None);
}

#[test]
fn raw_attributes_keep_valued_ones_by_key_later_wins() {
    let attr = |k: &str, v: Option<&str>| RawAttribute { key: k.to_string(), value: v.map(|x| x.to_string()) };
    let raw = RawSpan {
        trace_id: vec![1],
        span_id: vec![2],
        parent_span_id: Vec::new(),
        name: "n".to_string(),
        start_time_unix_nano: 0,
        end_time_unix_nano: 0,
        attributes: vec![
            attr("a", Some("1")),
            attr("b", None),
            attr("c", Some("3")),
            attr("a", Some("2")),
        ],
    };
    let s = NormalizedSpan::from_raw(raw);
    assert_eq!(
        s.attributes,
        vec![("a".to_string(), "2".to_string()), ("c".to_string(), "3".to_string())]
    );
}

#[test]
fn trace_opened_by_root_span() {
    let t = Trace::new_from_normalized_span(span("t1", "a", None, "root", 10, 20));
    assert_eq!(t.trace_id(), "t1");
    assert_eq!(t.root_name(), Some("root"));
    assert_eq!(t.span_count(), 1);
    assert_eq!(t.start_unix_nano(), 10);
    assert_eq!(t.end_time(), 20);
    assert_eq!(t.duration(), 10);
    assert_eq!(t.latest_span_time(), 10);
}

#[test]
fn trace_refuses_span_of_other_trace() {
    let mut t = Trace::new_from_normalized_span(span("t1", "a", None, "root", 10, 20));
    assert!(!t.insert_span(span("t2", "b", Some("a"), "child", 12, 15)));
    assert_eq!(t.span_count(), 1);
    assert_eq!(t.latest_span_time(), 10);
}

#[test]
fn trace_insert_reports_replacement() {
    let mut t = Trace::new_from_normalized_span(span("t1", "a", Some("x"), "first", 10, 20));
    assert_eq!(t.root_name(), None);
    assert!(!t.insert_span(span("t1", "b", Some("a"), "child", 30, 40)));
    assert!(t.insert_span(span("t1", "b", Some("a"), "child2", 5, 8)));
    assert_eq!(t.span_count(), 2);
    assert_eq!(t.span(&"b".to_string()).unwrap().name, "child2");
    // the latest span time never goes down
    assert_eq!(t.latest_span_time(), 30);
    assert_eq!(t.start_unix_nano(), 5);
    assert_eq!(t.end_time(), 20);
    assert_eq!(t.duration(), 15);
}

#[test]
fn trace_root_that_arrives_later_is_taken_and_kept() {
    let mut t = Trace::new_from_normalized_span(span("t1", "b", Some("a"), "child", 10, 20));
    assert_eq!(t.root_name(), None);
    t.insert_span(span("t1", "a", None, "root", 5, 30));
    assert_eq!(t.root_name(), Some("root"));
    t.insert_span(span("t1", "c", None, "other root", 1, 2));
    assert_eq!(t.root_name(), Some("root"));
}

#[test]
fn trace_duration_is_zero_when_ends_come_first() {
    let t = Trace::new_from_normalized_span(span("t1", "a", None, "r", 50, 20));
    assert_eq!(t.duration(), 0);
}

#[test]
fn store_groups_spans_by_trace() {
    let mut store = Store::new();
    store.insert_spans(vec![
        span("t1", "a", None, "root", 1, 10),
        span("t2", "x", None, "other", 2, 3),
        span("t1", "b", Some("a"), "child", 2, 5),
    ]);
    assert_eq!(store.traces().len(), 2);
    assert_eq!(store.span_total(), 3);
    let t1 = store.trace(&"t1".to_string()).unwrap();
    assert_eq!(t1.span_count(), 2);
    assert!(store.trace(&"t3".to_string()).is_none());
}

#[test]
fn recent_traces_latest_first_limited() {
    let mut store = Store::new();
    store.insert_spans(vec![
        span("t1", "a", None, "alpha", 100, 110),
        span("t2", "b", None, "beta", 300, 350),
        span("t3", "c", None, "gamma", 200, 260),
    ]);
    let snap = store.recent_traces(TraceListQuery { limit: 2, search: None });
    let ids: Vec<&str> = snap.rows.iter().map(|r| r.trace_id.as_str()).collect();
    assert_eq!(ids, vec!["t2", "t3"]);
    assert_eq!(snap.total_traces, 3);
    assert_eq!(snap.total_spans, 3);
    assert_eq!(snap.rows[0].root_name, Some("beta".to_string()));
    assert_eq!(snap.rows[0].duration, 50);
    assert_eq!(snap.rows[0].span_count, 1);
    assert_eq!(snap.rows[0].start_unix_nano, 300);
}

#[test]
fn recent_traces_search_matches_any_span_name() {
    let mut store = Store::new();
    store.insert_spans(vec![
        span("t1", "a", None, "GET /users", 100, 110),
        span("t1", "b", Some("a"), "db query", 101, 105),
        span("t2", "c", None, "GET /orders", 200, 260),
    ]);
    let snap = store.recent_traces(TraceListQuery { limit: 10, search: Some("query".to_string()) });
    assert_eq!(snap.rows.len(), 1);
    assert_eq!(snap.rows[0].trace_id, "t1");
    let all = store.recent_traces(TraceListQuery { limit: 10, search: Some(String::new()) });
    assert_eq!(all.rows.len(), 2);
    let none = store.recent_traces(TraceListQuery { limit: 10, search: Some("zzz".to_string()) });
    assert_eq!(none.rows.len(), 0);
    assert_eq!(none.total_traces, 2);
}

#[test]
fn recent_traces_ties_keep_arrival_order() {
    let mut store = Store::new();
    store.insert_spans(vec![
        span("t1", "a", None, "one", 100, 110),
        span("t2", "b", None, "two", 100, 120),
    ]);
    let snap = store.recent_traces(TraceListQuery { limit: 0, search: None });
    assert!(snap.rows.is_empty());
    let snap = store.recent_traces(TraceListQuery { limit: 5, search: None });
    let ids: Vec<&str> = snap.rows.iter().map(|r| r.trace_id.as_str()).collect();
    assert_eq!(ids, vec!["t1", "t2"]);
}

#[test]
fn resending_a_span_changes_nothing() {
    let mut t = Trace::new_from_normalized_span(span("t1", "a", None, "root", 10, 20));
    t.insert_span(span("t1", "b", Some("a"), "child", 12, 15));
    let before: Vec<(String, u64)> = t.spans().iter().map(|s| (s.span_id.clone(), s.start_unix_nano)).collect();
    assert!(t.insert_span(span("t1", "b", Some("a"), "child", 12, 15)));
    let after: Vec<(String, u64)> = t.spans().iter().map(|s| (s.span_id.clone(), s.start_unix_nano)).collect();
    assert_eq!(before, after);
    assert_eq!(t.latest_span_time(), 12);
    assert_eq!(t.root_name(), Some("root"));
}

#[test]
fn inserted_spans_can_be_found_in_their_trace() {
    let mut store = Store::new();
    store.insert_spans(vec![span("t1", "a", None, "root", 1, 2), span("t2", "b", None, "other", 3, 4)]);
    store.insert_spans(vec![span("t1", "c", Some("a"), "child", 2, 3)]);
    let t1 = store.trace(&"t1".to_string()).unwrap();
    assert!(t1.span(&"a".to_string()).is_some());
    assert!(t1.span(&"c".to_string()).is_some());
    assert!(store.trace(&"t2".to_string()).unwrap().span(&"b".to_string()).is_some());
}

#[test]
fn batch_insert_equals_two_inserts_and_empty_batch_changes_nothing() {
    let a = || {
        vec![
            span("t1", "a", None, "one", 100, 200),
            span("t2", "c", Some("z"), "two", 300, 400),
        ]
    };
    let b = || {
        vec![
            span("t1", "b", Some("a"), "child", 110, 150),
            span("t2", "d", None, "root", 290, 410),
            span("t1", "a", None, "renamed", 100, 210),
        ]
    };
    let mut whole = Store::new();
    let mut all = a();
    all.extend(b());
    whole.insert_spans(all);
    let mut parts = Store::new();
    parts.insert_spans(a());
    parts.insert_spans(b());
    parts.insert_spans(Vec::new());
    assert_eq!(whole.traces().len(), parts.traces().len());
    for (x, y) in whole.traces().iter().zip(parts.traces().iter()) {
        assert_eq!(x.trace_id(), y.trace_id());
        assert_eq!(x.root_name(), y.root_name());
        assert_eq!(x.latest_span_time(), y.latest_span_time());
        let xs: Vec<(String, String)> = x.spans().iter().map(|s| (s.span_id.clone(), s.name.clone())).collect();
        let ys: Vec<(String, String)> = y.spans().iter().map(|s| (s.span_id.clone(), s.name.clone())).collect();
        assert_eq!(xs, ys);
    }
    assert_eq!(whole.span_total(), 4);
}

#[test]
fn root_is_the_first_parentless_span_taken_in() {
    let mut t = Trace::new_from_normalized_span(span("t1", "b", Some("a"), "child", 110, 150));
    assert_eq!(t.root_name(), None);
    t.insert_span(span("t9", "x", None, "other trace", 1, 2));
    assert_eq!(t.root_name(), None);
    t.insert_span(span("t1", "a", None, "first root", 100, 200));
    t.insert_span(span("t1", "c", None, "second root", 90, 300));
    assert_eq!(t.root_name(), Some("first root"));
    t.insert_span(span("t1", "a", None, "first root renamed", 100, 200));
    assert_eq!(t.root_name(), Some("first root renamed"));
}
