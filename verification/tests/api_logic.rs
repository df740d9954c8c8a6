use trace_top::api::{
    api_error, children_by_parent, percentile_nearest_rank, sort_strings, span_duration_nano, span_list_response,
    span_report, span_report_response, span_response, span_stats, trace_detail, trace_response, SpansResponse,
};
use trace_top::store::Store;
use trace_top::types::NormalizedSpan;

fn span(trace: &str, id: &str, parent: Option<&str>, name: &str, start: u64, end: u64) -> NormalizedSpan {
    NormalizedSpan {
        trace_id: trace.to_string(),
        span_id: id.to_string(),
        parent_span_id: parent.map(|p| p.to_string()),
        name: name.to_string(),
        start_unix_nano: start,
        end_unix_nano: end,
        attributes: Vec::new(),
    }
}

fn sample_store() -> Store {
    let mut store = Store::new();
    store.insert_spans(vec![
        span("t1", "r1", None, "GET", 0, 100),
        span("t1", "q1", Some("r1"), "query", 10, 40),
        span("t1", "q2", Some("r1"), "query", 50, 60),
        span("t2", "r2", None, "GET", 0, 300),
        span("t2", "q3", Some("r2"), "query", 20, 120),
        span("t2", "z", Some("r2"), "auth", 5, 7),
    ]);
    store
}

#[test]
fn duration_saturates_at_zero() {
    assert_eq!(span_duration_nano(&span("t", "a", None, "n", 10, 25)), 15);
    assert_eq!(span_duration_nano(&span("t", "a", None, "n", 25, 10)), 0);
}

#[test]
fn nearest_rank_percentiles() {
    let v: Vec<u64> = (1..=10).collect();
    assert_eq!(percentile_nearest_rank(&v, 50), 5);
    assert_eq!(percentile_nearest_rank(&v, 95), 10);
    assert_eq!(percentile_nearest_rank(&v, 99), 10);
    assert_eq!(percentile_nearest_rank(&v, 1), 1);
    assert_eq!(percentile_nearest_rank(&[], 50), 0);
    assert_eq!(percentile_nearest_rank(&[7], 50), 7);
}

#[test]
fn stats_of_durations() {
    let s = span_stats(vec![30, 10, 20, 40]);
    assert_eq!(s.calls, 4);
    assert_eq!(s.total_duration_nano, 100);
    assert_eq!(s.mean_nano, 25);
    assert_eq!(s.p50_nano, 20);
    assert_eq!(s.p95_nano, 40);
    assert_eq!(s.p99_nano, 40);
    assert_eq!(s.max_nano, 40);
    assert!(s.p50_nano <= s.p95_nano && s.p95_nano <= s.p99_nano && s.p99_nano <= s.max_nano);
}

#[test]
fn stats_of_no_durations_are_zero() {
    let s = span_stats(Vec::new());
    assert_eq!(s.calls, 0);
    assert_eq!(s.total_duration_nano, 0);
    assert_eq!(s.mean_nano, 0);
    assert_eq!(s.p50_nano, 0);
    assert_eq!(s.max_nano, 0);
}

#[test]
fn stats_total_is_capped() {
    let s = span_stats(vec![u64::MAX, u64::MAX]);
    assert_eq!(s.total_duration_nano, u64::MAX);
    assert_eq!(s.mean_nano, u64::MAX);
}

#[test]
fn strings_sort_in_byte_order() {
    let v = vec!["b".to_string(), "ab".to_string(), "a".to_string(), "B".to_string(), "é".to_string()];
    let s = sort_strings(v);
    assert_eq!(s, vec!["B", "a", "ab", "b", "é"]);
}

#[test]
fn span_response_sorts_children() {
    let r = span_response(&span("t", "a", None, "n", 1, 4), vec!["c".to_string(), "a".to_string()]);
    assert_eq!(r.children, vec!["a", "c"]);
    assert_eq!(r.duration_nano, 3);
    assert_eq!(r.start_time_unix_nano, 1);
}

#[test]
fn children_grouped_by_parent() {
    let store = sample_store();
    let t = store.trace(&"t2".to_string()).unwrap();
    let m = children_by_parent(t);
    assert_eq!(m.len(), 1);
    assert_eq!(m[0].0, "r2");
    assert_eq!(m[0].1, vec!["q3", "z"]);
}

#[test]
fn span_list_orders_by_calls_then_name() {
    let store = sample_store();
    let list = span_list_response(&store);
    let names: Vec<&str> = list.spans.iter().map(|s| s.name.as_str()).collect();
    assert_eq!(names, vec!["query", "GET", "auth"]);
    assert_eq!(list.spans[0].stats.calls, 3);
    assert_eq!(list.spans[0].stats.max_nano, 100);
    assert_eq!(list.spans[1].stats.calls, 2);
    assert_eq!(list.spans[2].stats.calls, 1);
}

#[test]
fn span_report_lists_slowest_first() {
    let store = sample_store();
    let rep = span_report_response(&store, "query".to_string(), 2);
    assert_eq!(rep.span_name, "query");
    assert_eq!(rep.stats.calls, 3);
    let ids: Vec<&str> = rep.slowest.iter().map(|s| s.span_id.as_str()).collect();
    assert_eq!(ids, vec!["q3", "q1"]);
    assert_eq!(rep.slowest[0].duration_nano, 100);
    let all = span_report_response(&store, "GET".to_string(), 10);
    assert_eq!(all.slowest.len(), 2);
    assert_eq!(all.slowest[0].children, vec!["q3", "z"]);
}

#[test]
fn span_report_without_name_lists_all() {
    let store = sample_store();
    match span_report(&store, None, None) {
        Ok(SpansResponse::List(l)) => assert_eq!(l.spans.len(), 3),
        _ => panic!("expected a list"),
    }
}

#[test]
fn span_report_with_empty_name_is_bad_request() {
    let store = sample_store();
    match span_report(&store, Some(String::new()), None) {
        Err(e) => {
            assert_eq!(e.status, 400);
            assert_eq!(e.error, "name cannot be empty");
        },
        _ => panic!("expected an error"),
    }
}

#[test]
fn span_report_limit_defaults_and_caps() {
    let mut store = Store::new();
    let spans: Vec<NormalizedSpan> =
        (0..600u64).map(|i| span("t", &format!("s{i}"), None, "op", 0, i)).collect();
    store.insert_spans(spans);
    match span_report(&store, Some("op".to_string()), None) {
        Ok(SpansResponse::Report(r)) => {
            assert_eq!(r.slowest.len(), 25);
            assert_eq!(r.slowest[0].duration_nano, 599);
        },
        _ => panic!("expected a report"),
    }
    match span_report(&store, Some("op".to_string()), Some(10_000)) {
        Ok(SpansResponse::Report(r)) => assert_eq!(r.slowest.len(), 500),
        _ => panic!("expected a report"),
    }
}

#[test]
fn trace_response_sorts_spans_by_start() {
    let store = sample_store();
    let t = store.trace(&"t2".to_string()).unwrap();
    let r = trace_response(t);
    let ids: Vec<&str> = r.spans.iter().map(|s| s.span_id.as_str()).collect();
    assert_eq!(ids, vec!["r2", "z", "q3"]);
    assert_eq!(r.root_name, Some("GET".to_string()));
    assert_eq!(r.duration_nano, 300);
    assert_eq!(r.span_count, 3);
    assert_eq!(r.spans[0].children, vec!["q3", "z"]);
}

#[test]
fn trace_detail_of_unknown_trace_is_not_found() {
    let store = sample_store();
    match trace_detail(&store, &"nope".to_string()) {
        Err(e) => {
            assert_eq!(e.status, 404);
            assert_eq!(e.error, "trace not found");
        },
        Ok(_) => panic!("expected not found"),
    }
    assert!(trace_detail(&store, &"t1".to_string()).is_ok());
}

#[test]
fn api_error_carries_status_and_text() {
    let e = api_error(418, "teapot");
    assert_eq!(e.status, 418);
    assert_eq!(e.error, "teapot");
}
