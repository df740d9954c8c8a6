use trace_top::app::{Action, AppState, Screen};
use trace_top::keymap::{map_key, Key, KeyPress};
use trace_top::store::Store;
use trace_top::text::{clock_text, format_start_time, short_trace_id, str_contains};
use trace_top::types::NormalizedSpan;

fn span(trace: &str, id: &str, parent: Option<&str>, name: &str, start: u64, end: u64) -> NormalizedSpan {
    NormalizedSpan {
        trace_id: trace.to_string(),
        span_id: id.to_string(),
        parent_span_id: parent.map(|p| p.to_string()),
        name: name.to_string(),
        start_unix_nano: start,
        end_unix_nano: end,
        attributes: Vec::new(),
    }
}

fn press(code: Key) -> KeyPress {
    KeyPress { code, control: false }
}

fn store() -> Store {
    let mut s = Store::new();
    s.insert_spans(vec![
        span("t1", "a", None, "one", 100, 200),
        span("t1", "b", Some("a"), "child", 110, 150),
        span("t2", "c", None, "two", 300, 400),
    ]);
    s
}

#[test]
fn new_state_starts_on_empty_trace_list() {
    let app = AppState::new();
    assert_eq!(app.screen, Screen::TraceList);
    assert!(!app.should_quit);
    assert_eq!(app.trace_list_query.limit, 250);
    assert_eq!(app.selected_trace_id_text(), "<none>");
}

#[test]
fn refresh_selects_first_trace() {
    let s = store();
    let mut app = AppState::new();
    app.update(Action::RefreshTraceList, &s);
    assert_eq!(app.trace_list.rows.len(), 2);
    assert_eq!(app.selected_trace_id_text(), "t2");
    app.update(Action::MoveSelectionDown, &s);
    assert_eq!(app.selected_trace_index, 1);
    assert_eq!(app.selected_trace_id_text(), "t1");
    // at the last row, moving down reloads and keeps the selection in range
    app.update(Action::MoveSelectionDown, &s);
    assert_eq!(app.selected_trace_index, 1);
    app.update(Action::MoveSelectionUp, &s);
    app.update(Action::MoveSelectionUp, &s);
    assert_eq!(app.selected_trace_index, 0);
}

#[test]
fn open_trace_and_move_spans() {
    let s = store();
    let mut app = AppState::new();
    app.update(Action::RefreshTraceList, &s);
    app.update(Action::MoveSelectionDown, &s);
    app.update(Action::ShowTraceDetail, &s);
    assert_eq!(app.screen, Screen::TraceDetail);
    let rows = &app.selected_trace.as_ref().unwrap().rows;
    assert_eq!(rows.len(), 2);
    app.update(Action::MoveSpanDown, &s);
    assert_eq!(app.selected_span_index, 1);
    app.update(Action::MoveSpanDown, &s);
    assert_eq!(app.selected_span_index, 1);
    app.update(Action::RefreshCurrentScreen, &s);
    assert_eq!(app.selected_span_index, 1);
    assert_eq!(app.selected_trace.as_ref().unwrap().selected_span.as_ref().unwrap().span_id, "b");
    app.update(Action::MoveSpanUp, &s);
    assert_eq!(app.selected_span_index, 0);
    app.update(Action::ShowTraceList, &s);
    assert_eq!(app.screen, Screen::TraceList);
}

#[test]
fn quit_and_resize() {
    let s = store();
    let mut app = AppState::new();
    app.update(Action::Resize(80, 24), &s);
    assert_eq!(app.terminal_size, Some((80, 24)));
    app.update(Action::Noop, &s);
    app.update(Action::Quit, &s);
    assert!(app.should_quit);
}

#[test]
fn keys_map_to_actions_per_screen() {
    let mut app = AppState::new();
    assert!(matches!(map_key(press(Key::Char('q')), &app), Action::Quit));
    assert!(matches!(map_key(press(Key::Enter), &app), Action::ShowTraceDetail));
    assert!(matches!(map_key(press(Key::Char('j')), &app), Action::MoveSelectionDown));
    assert!(matches!(map_key(press(Key::Up), &app), Action::MoveSelectionUp));
    assert!(matches!(map_key(press(Key::Esc), &app), Action::ShowTraceList));
    assert!(matches!(map_key(press(Key::Char('x')), &app), Action::Noop));
    app.screen = Screen::TraceDetail;
    assert!(matches!(map_key(press(Key::Down), &app), Action::MoveSpanDown));
    assert!(matches!(map_key(press(Key::Char('k')), &app), Action::MoveSpanUp));
    assert!(matches!(map_key(press(Key::Enter), &app), Action::Noop));
    app.screen = Screen::AggregateSpans;
    assert!(matches!(map_key(press(Key::Char('b')), &app), Action::ShowAggregates));
    assert!(matches!(map_key(press(Key::Enter), &app), Action::OpenAggregateSpanTrace));
    assert!(matches!(map_key(press(Key::Char('r')), &app), Action::RefreshCurrentScreen));
    assert!(matches!(map_key(press(Key::Char('a')), &app), Action::ShowAggregates));
}

#[test]
fn short_trace_ids_keep_sixteen_chars() {
    assert_eq!(short_trace_id("0123456789abcdef0123456789abcdef"), "0123456789abcdef");
    assert_eq!(short_trace_id("abc"), "abc");
    assert_eq!(short_trace_id("ééééééééééééééééé"), "éééééééééééééééé");
}

#[test]
fn substring_search() {
    assert!(str_contains("GET /users", "/us"));
    assert!(str_contains("abc", ""));
    assert!(!str_contains("abc", "abcd"));
    assert!(!str_contains("abc", "ac"));
}

#[test]
fn start_time_text() {
    assert_eq!(format_start_time(0), "-");
    let t = format_start_time(1_700_000_000_000_000_000);
    assert_eq!(t.len(), 8);
    assert_eq!(&t[2..3], ":");
    assert_eq!(&t[5..6], ":");
}

#[test]
fn clock_text_pads_each_part() {
    assert_eq!(clock_text(7, 5, 9), "07:05:09");
    assert_eq!(clock_text(23, 59, 0), "23:59:00");
}

#[test]
fn search_keys_while_typing() {
    let mut app = AppState::new();
    assert!(matches!(map_key(press(Key::Char('/')), &app), Action::StartSearch));
    assert!(matches!(map_key(press(Key::Char('f')), &app), Action::StartFilter));
    app.search.active = true;
    assert!(matches!(map_key(press(Key::Esc), &app), Action::CancelSearch));
    assert!(matches!(map_key(press(Key::Enter), &app), Action::SubmitSearch));
    assert!(matches!(map_key(press(Key::Backspace), &app), Action::SearchBackspace));
    assert!(matches!(map_key(press(Key::Char('q')), &app), Action::SearchPush('q')));
    let ctrl = KeyPress { code: Key::Char('c'), control: true };
    assert!(matches!(map_key(ctrl, &app), Action::Noop));
    assert!(matches!(map_key(press(Key::Up), &app), Action::Noop));
}

#[test]
fn esc_clears_a_search_before_going_back() {
    let s = store();
    let mut app = AppState::new();
    app.update(Action::RefreshTraceList, &s);
    app.update(Action::StartSearch, &s);
    app.update(Action::SearchPush('t'), &s);
    app.update(Action::SearchPush('w'), &s);
    app.update(Action::SubmitSearch, &s);
    assert!(matches!(map_key(press(Key::Esc), &app), Action::ClearSearch));
    app.update(Action::ClearSearch, &s);
    assert!(matches!(map_key(press(Key::Esc), &app), Action::ShowTraceList));
}

#[test]
fn submitted_search_narrows_the_trace_list() {
    let s = store();
    let mut app = AppState::new();
    app.update(Action::RefreshTraceList, &s);
    assert_eq!(app.trace_list.rows.len(), 2);
    app.update(Action::StartSearch, &s);
    assert!(app.is_search_editing(Screen::TraceList));
    for c in "chil".chars() {
        app.update(Action::SearchPush(c), &s);
    }
    app.update(Action::SearchPush('x'), &s);
    app.update(Action::SearchBackspace, &s);
    assert_eq!(app.search_label(Screen::TraceList), "chil");
    app.update(Action::SubmitSearch, &s);
    assert!(!app.search.active);
    assert_eq!(app.trace_list_query.search.as_deref(), Some("chil"));
    assert_eq!(app.trace_list.rows.len(), 1);
    assert_eq!(app.selected_trace_id_text(), "t1");
    assert_eq!(app.search_label(Screen::TraceList), "chil");
    app.update(Action::ClearSearch, &s);
    assert_eq!(app.trace_list_query.search, None);
    assert_eq!(app.trace_list.rows.len(), 2);
    assert_eq!(app.search_label(Screen::TraceList), "<none>");
}

#[test]
fn empty_search_submits_as_none_and_cancel_keeps_search() {
    let s = store();
    let mut app = AppState::new();
    app.update(Action::StartSearch, &s);
    app.update(Action::SubmitSearch, &s);
    assert_eq!(app.trace_list_query.search, None);
    app.update(Action::StartSearch, &s);
    app.update(Action::SearchPush('z'), &s);
    app.update(Action::CancelSearch, &s);
    assert!(!app.search.active);
    assert_eq!(app.trace_list_query.search, None);
}

#[test]
fn trace_detail_search_and_filter_pick_rows() {
    let s = store();
    let mut app = AppState::new();
    app.update(Action::RefreshTraceList, &s);
    app.update(Action::MoveSelectionDown, &s);
    app.update(Action::ShowTraceDetail, &s);
    assert_eq!(app.trace_detail_visible_rows(), vec![0, 1]);
    app.update(Action::StartFilter, &s);
    assert!(app.is_filter_editing(Screen::TraceDetail));
    app.update(Action::SearchPush('c'), &s);
    app.update(Action::SubmitSearch, &s);
    assert_eq!(app.filter_label(Screen::TraceDetail), "c");
    assert_eq!(app.trace_detail_visible_rows(), vec![1]);
    app.update(Action::StartSearch, &s);
    app.update(Action::SearchPush('o'), &s);
    app.update(Action::SubmitSearch, &s);
    assert_eq!(app.search_label(Screen::TraceDetail), "o");
    assert_eq!(app.trace_detail_visible_rows(), Vec::<usize>::new());
    assert!(app.has_current_screen_search());
    app.update(Action::ClearSearch, &s);
    assert!(!app.has_current_screen_search());
    assert_eq!(app.trace_detail_visible_rows(), vec![0, 1]);
}

#[test]
fn start_filter_off_the_trace_detail_does_nothing() {
    let s = store();
    let mut app = AppState::new();
    app.update(Action::StartFilter, &s);
    assert!(!app.search.active);
    assert_eq!(app.filter_label(Screen::TraceList), "<none>");
}

#[test]
fn trace_list_refresh_cadence() {
    let mut app = AppState::new();
    assert!(!app.wants_trace_list_refresh(249));
    assert!(app.wants_trace_list_refresh(250));
    app.screen = Screen::TraceDetail;
    assert!(!app.wants_trace_list_refresh(1000));
}

#[test]
fn down_then_up_restores_the_selection() {
    let s = store();
    let mut app = AppState::new();
    app.update(Action::RefreshTraceList, &s);
    let before = app.selected_trace_index;
    app.update(Action::MoveSelectionDown, &s);
    app.update(Action::MoveSelectionUp, &s);
    assert_eq!(app.selected_trace_index, before);
    assert_eq!(app.selected_trace_id_text(), "t2");
}

#[test]
fn aggregate_selections_stay_at_zero_on_empty_lists() {
    let s = store();
    let mut app = AppState::new();
    app.screen = Screen::Aggregates;
    app.update(Action::MoveSelectionDown, &s);
    app.update(Action::MoveSelectionUp, &s);
    assert_eq!(app.selected_aggregate_index, 0);
    app.screen = Screen::AggregateSpans;
    app.update(Action::MoveSelectionDown, &s);
    app.update(Action::RefreshCurrentScreen, &s);
    assert_eq!(app.selected_aggregate_span_index, 0);
}
