//! The state of the terminal viewer and how each action changes it.

use vstd::prelude::*;
use crate::store::{
    Store, TraceListQuery, TraceListSnapshot, ListView, TraceDetailSnapshot, DetailView,
    AggregateQuery, AggregateSnapshot, AggregateRow, AggregateSpansQuery, AggregateSpansSnapshot,
    AggregateSpanRow, recent_traces_view, trace_detail_view, has_trace, trace_index,
};
use crate::types::{TraceId, SpanId, TraceView};
use crate::waterfall::RowView;
use crate::text::{push_char, seq_contains_run, str_contains, MAX_TEXT_CHARS};
use vstd::string::StrSliceExecFns;

verus! {

/// How many traces the trace list shows.
pub const DEFAULT_TRACE_LIST_LIMIT: usize = 250;

/// How long, in milliseconds, the trace list on screen waits between reloads.
pub const TRACE_LIST_REFRESH_INTERVAL_MILLIS: u128 = 250;

pub enum Action {
    Noop,
    Quit,
    Resize(u16, u16),
    RefreshCurrentScreen,
    RefreshTraceList,
    ShowTraceList,
    ShowTraceDetail,
    ShowAggregates,
    ShowAggregateSpans,
    OpenAggregateSpanTrace,
    MoveSelectionDown,
    MoveSelectionUp,
    MoveSpanDown,
    MoveSpanUp,
    StartSearch,
    StartFilter,
    SearchPush(char),
    SearchBackspace,
    SubmitSearch,
    CancelSearch,
    ClearSearch,
}

#[derive(Clone, Copy, Debug, PartialEq, Eq, Structural)]
pub enum Screen {
    TraceList,
    TraceDetail,
    Aggregates,
    AggregateSpans,
}

/// What the text being typed will set: the current screen's search, or
/// the span filter of the trace detail.
#[derive(Clone, Copy, Debug, PartialEq, Eq, Structural)]
pub enum SearchTarget {
    Search,
    Filter,
}

/// The search line: whether text is being typed, what it will set, and the
/// text typed so far.
pub struct SearchState {
    pub active: bool,
    pub target: SearchTarget,
    pub draft: String,
}

pub struct AppState {
    pub screen: Screen,
    pub should_quit: bool,
    pub terminal_size: Option<(u16, u16)>,
    pub trace_list_query: TraceListQuery,
    pub trace_list: TraceListSnapshot,
    pub selected_trace_index: usize,
    pub selected_trace_id: Option<TraceId>,
    pub selected_trace: Option<TraceDetailSnapshot>,
    pub selected_span_index: usize,
    pub aggregate_query: AggregateQuery,
    pub aggregate: AggregateSnapshot,
    pub selected_aggregate_index: usize,
    pub aggregate_spans_query: Option<AggregateSpansQuery>,
    pub aggregate_spans: AggregateSpansSnapshot,
    pub selected_aggregate_span_index: usize,
    pub search: SearchState,
    pub trace_detail_search: Option<String>,
    pub trace_detail_filter: Option<String>,
    pub aggregate_spans_search: Option<String>,
}

/// The mathematical form of an `AppState`. The aggregate parts, which no
/// action rebuilds, are kept as they are.
pub struct AppView {
    pub screen: Screen,
    pub should_quit: bool,
    pub terminal_size: Option<(u16, u16)>,
    pub trace_list_query: (nat, Option<Seq<char>>),
    pub trace_list: ListView,
    pub selected_trace_index: nat,
    pub selected_trace_id: Option<Seq<char>>,
    pub selected_trace: Option<DetailView>,
    pub selected_span_index: nat,
    pub aggregate_query: (Option<Seq<char>>, Option<Seq<char>>),
    pub aggregate: Seq<AggregateRow>,
    pub selected_aggregate_index: nat,
    pub aggregate_spans_query: Option<AggregateSpansQuery>,
    pub aggregate_spans: Seq<AggregateSpanRow>,
    pub selected_aggregate_span_index: nat,
    pub search_active: bool,
    pub search_target: SearchTarget,
    pub search_draft: Seq<char>,
    pub trace_detail_search: Option<Seq<char>>,
    pub trace_detail_filter: Option<Seq<char>>,
    pub aggregate_spans_search: Option<Seq<char>>,
}

impl View for AppState {
    type V = AppView;

    open spec fn view(&self) -> AppView {
        AppView {
            screen: self.screen,
            should_quit: self.should_quit,
            terminal_size: self.terminal_size,
            trace_list_query: (self.trace_list_query.limit as nat, self.trace_list_query.search.deep_view()),
            trace_list: self.trace_list@,
            selected_trace_index: self.selected_trace_index as nat,
            selected_trace_id: self.selected_trace_id.deep_view(),
            selected_trace: match self.selected_trace {
                Some(d) => Some(d@),
                None => None,
            },
            selected_span_index: self.selected_span_index as nat,
            aggregate_query: (self.aggregate_query.span_name_search.deep_view(), self.aggregate_query.group_by_attribute.deep_view()),
            aggregate: self.aggregate.rows@,
            selected_aggregate_index: self.selected_aggregate_index as nat,
            aggregate_spans_query: self.aggregate_spans_query,
            aggregate_spans: self.aggregate_spans.rows@,
            selected_aggregate_span_index: self.selected_aggregate_span_index as nat,
            search_active: self.search.active,
            search_target: self.search.target,
            search_draft: self.search.draft@,
            trace_detail_search: self.trace_detail_search.deep_view(),
            trace_detail_filter: self.trace_detail_filter.deep_view(),
            aggregate_spans_search: self.aggregate_spans_search.deep_view(),
        }
    }
}

/// The text of an optional search, empty when there is none.
pub open spec fn text_of(o: Option<Seq<char>>) -> Seq<char> {
    match o {
        Some(t) => t,
        None => Seq::empty(),
    }
}

/// The search that submitted text sets: none for empty text.
pub open spec fn search_value(text: Seq<char>) -> Option<Seq<char>> {
    if text.len() == 0 {
        None
    } else {
        Some(text)
    }
}

/// `i` kept inside a list of `len` rows: 0 for no rows, else at most the last row.
pub open spec fn clamp(i: nat, len: nat) -> nat {
    if len == 0 {
        0
    } else if i >= len {
        (len - 1) as nat
    } else {
        i
    }
}

/// The trace id of the row at `i`, if there is one.
pub open spec fn id_at(rows: Seq<crate::store::SummaryView>, i: nat) -> Option<Seq<char>> {
    if i < rows.len() {
        Some(rows[i as int].trace_id)
    } else {
        None
    }
}

/// The first row among the first `n` that shows span `id`.
pub open spec fn row_position(rows: Seq<RowView>, id: Seq<char>, n: nat) -> Option<nat>
    decreases n,
{
    if n == 0 {
        None
    } else {
        match row_position(rows, id, (n - 1) as nat) {
            Some(p) => Some(p),
            None => if rows[n - 1].span_id == id {
                Some((n - 1) as nat)
            } else {
                None
            },
        }
    }
}

/// The detail of trace `id` with span `selected` selected, if the store has it.
pub open spec fn detail_in(ts: Seq<TraceView>, id: Seq<char>, selected: Option<Seq<char>>) -> Option<DetailView> {
    if has_trace(ts, id) {
        Some(trace_detail_view(ts[trace_index(ts, id)], selected))
    } else {
        None
    }
}

impl AppView {
    /// The search set on `screen`.
    pub open spec fn search_of(self, screen: Screen) -> Option<Seq<char>> {
        match screen {
            Screen::TraceList => self.trace_list_query.1,
            Screen::TraceDetail => self.trace_detail_search,
            Screen::Aggregates => self.aggregate_query.0,
            Screen::AggregateSpans => self.aggregate_spans_search,
        }
    }

    /// The current screen has a search set, or on the trace detail a filter.
    pub open spec fn has_current_screen_search(self) -> bool {
        self.search_of(self.screen) is Some || (self.screen == Screen::TraceDetail
            && self.trace_detail_filter is Some)
    }

    /// The current screen's search set to `v`.
    pub open spec fn with_search(self, v: Option<Seq<char>>) -> AppView {
        match self.screen {
            Screen::TraceList => AppView { trace_list_query: (self.trace_list_query.0, v), ..self },
            Screen::TraceDetail => AppView { trace_detail_search: v, ..self },
            Screen::Aggregates => AppView { aggregate_query: (v, self.aggregate_query.1), ..self },
            Screen::AggregateSpans => AppView { aggregate_spans_search: v, ..self },
        }
    }

    /// Typing stopped and the typed text dropped.
    pub open spec fn editing_closed(self) -> AppView {
        AppView { search_active: false, search_draft: Seq::empty(), ..self }
    }

    /// The trace list reloaded, the selection kept inside it.
    pub open spec fn trace_list_refreshed(self, ts: Seq<TraceView>) -> AppView {
        let list = recent_traces_view(ts, self.trace_list_query);
        let i = clamp(self.selected_trace_index, list.rows.len());
        AppView { trace_list: list, selected_trace_index: i, selected_trace_id: id_at(list.rows, i), ..self }
    }

    /// The span selection kept inside the selected trace's rows.
    pub open spec fn span_clamped(self) -> AppView {
        AppView {
            selected_span_index: match self.selected_trace {
                Some(d) => clamp(self.selected_span_index, d.rows.len()),
                None => 0,
            },
            ..self
        }
    }

    /// The selected trace reloaded, keeping the selected span where it can.
    pub open spec fn selected_trace_refreshed(self, ts: Seq<TraceView>) -> AppView {
        match self.selected_trace_id {
            None => AppView { selected_trace: None, ..self },
            Some(id) => {
                let span = match self.selected_trace {
                    Some(d) => if self.selected_span_index < d.rows.len() {
                        Some(d.rows[self.selected_span_index as int].span_id)
                    } else {
                        None
                    },
                    None => None,
                };
                AppView { selected_trace: detail_in(ts, id, span), ..self }.span_clamped()
            },
        }
    }

    /// Trace `trace_id` opened on span `span_id`.
    pub open spec fn trace_span_opened(self, ts: Seq<TraceView>, trace_id: Seq<char>, span_id: Seq<char>) -> AppView {
        let detail = detail_in(ts, trace_id, Some(span_id));
        let i = match detail {
            Some(d) => match row_position(d.rows, span_id, d.rows.len()) {
                Some(p) => p,
                None => 0,
            },
            None => 0,
        };
        AppView {
            selected_trace_id: Some(trace_id),
            selected_trace: detail,
            selected_span_index: i,
            screen: Screen::TraceDetail,
            ..self
        }.span_clamped()
    }

    /// The state after `action`, with the store holding `ts`.
    pub open spec fn after(self, action: Action, ts: Seq<TraceView>) -> AppView {
        match action {
            Action::Noop => self,
            Action::Quit => AppView { should_quit: true, ..self },
            Action::Resize(w, h) => AppView { terminal_size: Some((w, h)), ..self },
            Action::RefreshCurrentScreen => match self.screen {
                Screen::TraceList => self.trace_list_refreshed(ts),
                Screen::TraceDetail => self.selected_trace_refreshed(ts),
                Screen::Aggregates => self,
                Screen::AggregateSpans => AppView {
                    aggregate_spans: Seq::empty(),
                    selected_aggregate_span_index: 0,
                    ..self
                },
            },
            Action::RefreshTraceList => self.trace_list_refreshed(ts),
            Action::ShowTraceList => AppView { screen: Screen::TraceList, ..self }.trace_list_refreshed(ts),
            Action::ShowTraceDetail => AppView {
                selected_trace_id: id_at(self.trace_list.rows, self.selected_trace_index),
                selected_span_index: 0,
                screen: Screen::TraceDetail,
                ..self
            }.selected_trace_refreshed(ts),
            Action::ShowAggregates => self,
            Action::ShowAggregateSpans => self,
            Action::OpenAggregateSpanTrace => if self.selected_aggregate_span_index < self.aggregate_spans.len() {
                let row = self.aggregate_spans[self.selected_aggregate_span_index as int];
                self.trace_span_opened(ts, row.trace_id@, row.span_id@)
            } else {
                self
            },
            Action::MoveSelectionDown => match self.screen {
                Screen::TraceList => if self.selected_trace_index + 1 < self.trace_list.rows.len() {
                    AppView {
                        selected_trace_index: self.selected_trace_index + 1,
                        selected_trace_id: id_at(self.trace_list.rows, self.selected_trace_index + 1),
                        ..self
                    }
                } else {
                    self.trace_list_refreshed(ts)
                },
                Screen::Aggregates => if self.selected_aggregate_index + 1 < self.aggregate.len() {
                    AppView { selected_aggregate_index: self.selected_aggregate_index + 1, ..self }
                } else {
                    self
                },
                Screen::AggregateSpans => if self.selected_aggregate_span_index + 1 < self.aggregate_spans.len() {
                    AppView { selected_aggregate_span_index: self.selected_aggregate_span_index + 1, ..self }
                } else {
                    self
                },
                Screen::TraceDetail => self,
            },
            Action::MoveSelectionUp => match self.screen {
                Screen::TraceList => if self.selected_trace_index > 0 {
                    AppView {
                        selected_trace_index: (self.selected_trace_index - 1) as nat,
                        selected_trace_id: id_at(self.trace_list.rows, (self.selected_trace_index - 1) as nat),
                        ..self
                    }
                } else {
                    self
                },
                Screen::Aggregates => if self.selected_aggregate_index > 0 {
                    AppView { selected_aggregate_index: (self.selected_aggregate_index - 1) as nat, ..self }
                } else {
                    self
                },
                Screen::AggregateSpans => if self.selected_aggregate_span_index > 0 {
                    AppView { selected_aggregate_span_index: (self.selected_aggregate_span_index - 1) as nat, ..self }
                } else {
                    self
                },
                Screen::TraceDetail => self,
            },
            Action::MoveSpanDown => match (self.screen, self.selected_trace) {
                (Screen::TraceDetail, Some(d)) => if self.selected_span_index + 1 < d.rows.len() {
                    AppView { selected_span_index: self.selected_span_index + 1, ..self }
                } else {
                    self
                },
                _ => self,
            },
            Action::MoveSpanUp => if self.screen == Screen::TraceDetail && self.selected_span_index > 0 {
                AppView { selected_span_index: (self.selected_span_index - 1) as nat, ..self }
            } else {
                self
            },
            Action::StartSearch => AppView {
                search_active: true,
                search_target: SearchTarget::Search,
                search_draft: text_of(self.search_of(self.screen)),
                ..self
            },
            Action::StartFilter => if self.screen == Screen::TraceDetail {
                AppView {
                    search_active: true,
                    search_target: SearchTarget::Filter,
                    search_draft: text_of(self.trace_detail_filter),
                    ..self
                }
            } else {
                self
            },
            Action::SearchPush(c) => if self.search_active {
                AppView { search_draft: self.search_draft.push(c), ..self }
            } else {
                self
            },
            Action::SearchBackspace => if self.search_active && self.search_draft.len() > 0 {
                AppView { search_draft: self.search_draft.drop_last(), ..self }
            } else {
                self
            },
            Action::SubmitSearch => if !self.search_active {
                self
            } else {
                let v = search_value(self.search_draft);
                let closed = self.editing_closed();
                match self.search_target {
                    SearchTarget::Filter => if self.screen == Screen::TraceDetail {
                        AppView { trace_detail_filter: v, ..closed }
                    } else {
                        closed
                    },
                    SearchTarget::Search => if self.screen == Screen::TraceList {
                        closed.with_search(v).trace_list_refreshed(ts)
                    } else {
                        closed.with_search(v)
                    },
                }
            },
            Action::CancelSearch => self.editing_closed(),
            Action::ClearSearch => match self.screen {
                Screen::TraceList => self.with_search(None).trace_list_refreshed(ts),
                Screen::TraceDetail => AppView { trace_detail_search: None, trace_detail_filter: None, ..self },
                _ => self.with_search(None),
            },
        }
    }
}

impl AppState {
    /// The actions that would need span aggregates from the store, which it
    /// does not serve: showing the aggregates, refreshing them, and opening
    /// the spans of an aggregate row.
    pub open spec fn needs_aggregates(&self, action: Action) -> bool {
        match action {
            Action::ShowAggregates => true,
            Action::RefreshCurrentScreen => self.screen == Screen::Aggregates || (self.screen == Screen::AggregateSpans
                && self.aggregate_spans_query is Some),
            Action::ShowAggregateSpans => self.selected_aggregate_index < self.aggregate.rows.len(),
            _ => false,
        }
    }

    /// The actions that would step a selection past the largest index, or
    /// grow the typed text past what a string holds here.
    pub open spec fn steps_past_end(&self, action: Action) -> bool {
        match action {
            Action::MoveSelectionDown => match self.screen {
                Screen::TraceList => self.selected_trace_index == usize::MAX,
                Screen::Aggregates => self.selected_aggregate_index == usize::MAX,
                Screen::AggregateSpans => self.selected_aggregate_span_index == usize::MAX,
                Screen::TraceDetail => false,
            },
            Action::MoveSpanDown => self.screen == Screen::TraceDetail && self.selected_trace is Some
                && self.selected_span_index == usize::MAX,
            Action::SearchPush(_) => self.search.active && self.search.draft@.len() >= MAX_TEXT_CHARS,
            _ => false,
        }
    }

    /// Whether `action` is one that `update` does not serve: it would need
    /// span aggregates from the store, or step a selection past the largest
    /// index.
    pub fn refuses(&self, action: &Action) -> (r: bool)
        ensures
            r == (self.needs_aggregates(*action) || self.steps_past_end(*action)),
    {
        match action {
            Action::ShowAggregates => true,
            Action::RefreshCurrentScreen => match self.screen {
                Screen::Aggregates => true,
                Screen::AggregateSpans => self.aggregate_spans_query.is_some(),
                _ => false,
            },
            Action::ShowAggregateSpans => self.selected_aggregate_index < self.aggregate.rows.len(),
            Action::MoveSelectionDown => match self.screen {
                Screen::TraceList => self.selected_trace_index == usize::MAX,
                Screen::Aggregates => self.selected_aggregate_index == usize::MAX,
                Screen::AggregateSpans => self.selected_aggregate_span_index == usize::MAX,
                Screen::TraceDetail => false,
            },
            Action::MoveSpanDown => match self.screen {
                Screen::TraceDetail => self.selected_trace.is_some() && self.selected_span_index == usize::MAX,
                _ => false,
            },
            Action::SearchPush(_) => self.search.active && self.search.draft.as_str().unicode_len() >= MAX_TEXT_CHARS,
            _ => false,
        }
    }

    pub fn new() -> (app: AppState)
        ensures
            app@.screen == Screen::TraceList,
            !app@.should_quit,
            app@.terminal_size is None,
            app@.trace_list_query == (DEFAULT_TRACE_LIST_LIMIT as nat, None::<Seq<char>>),
            app@.trace_list.rows.len() == 0,
            app@.trace_list.total_traces == 0,
            app@.trace_list.total_spans == 0,
            app@.selected_trace_index == 0,
            app@.selected_trace_id is None,
            app@.selected_trace is None,
            app@.selected_span_index == 0,
            app@.aggregate_query == (None::<Seq<char>>, None::<Seq<char>>),
            app@.aggregate.len() == 0,
            app@.selected_aggregate_index == 0,
            app@.aggregate_spans_query is None,
            app@.aggregate_spans.len() == 0,
            app@.selected_aggregate_span_index == 0,
            !app@.search_active,
            app@.search_target == SearchTarget::Search,
            app@.search_draft.len() == 0,
            app@.trace_detail_search is None,
            app@.trace_detail_filter is None,
            app@.aggregate_spans_search is None,
    {
        AppState {
            screen: Screen::TraceList,
            should_quit: false,
            terminal_size: None,
            trace_list_query: TraceListQuery { limit: DEFAULT_TRACE_LIST_LIMIT, search: None },
            trace_list: TraceListSnapshot::empty(),
            selected_trace_index: 0,
            selected_trace_id: None,
            selected_trace: None,
            selected_span_index: 0,
            aggregate_query: AggregateQuery { span_name_search: None, group_by_attribute: None },
            aggregate: AggregateSnapshot { rows: Vec::new() },
            selected_aggregate_index: 0,
            aggregate_spans_query: None,
            aggregate_spans: AggregateSpansSnapshot { rows: Vec::new() },
            selected_aggregate_span_index: 0,
            search: SearchState { active: false, target: SearchTarget::Search, draft: String::new() },
            trace_detail_search: None,
            trace_detail_filter: None,
            aggregate_spans_search: None,
        }
    }

    /// The selected trace id, or "<none>".
    pub fn selected_trace_id_text(&self) -> (text: &str)
        ensures
            text@ == match self.selected_trace_id {
                Some(id) => id@,
                None => "<none>"@,
            },
    {
        match &self.selected_trace_id {
            Some(id) => id.as_str(),
            None => "<none>",
        }
    }
}

impl AppState {
    /// Applies `action`, reading the store where the action needs it.
    pub fn update(&mut self, action: Action, store: &Store)
        requires
            store.wf(),
            !old(self).needs_aggregates(action),
            !old(self).steps_past_end(action),
        ensures
            final(self)@ == old(self)@.after(action, store@),
    {
        match action {
            Action::Noop => {},
            Action::Quit => self.should_quit = true,
            Action::Resize(width, height) => self.terminal_size = Some((width, height)),
            Action::RefreshCurrentScreen => self.refresh_current_screen(store),
            Action::RefreshTraceList => self.refresh_trace_list(store),
            Action::ShowTraceList => {
                self.screen = Screen::TraceList;
                self.refresh_trace_list(store);
            },
            Action::ShowTraceDetail => self.open_selected_trace(store),
            Action::ShowAggregates => {
                // The store serves no aggregates; the precondition rules this out.
                proof {
                    assert(false);
                }
            },
            Action::ShowAggregateSpans => self.open_selected_aggregate_row(store),
            Action::OpenAggregateSpanTrace => self.open_selected_aggregate_span_trace(store),
            Action::MoveSelectionDown => self.move_trace_selection_down(store),
            Action::MoveSelectionUp => self.move_trace_selection_up(store),
            Action::MoveSpanDown => self.move_span_selection_down(store),
            Action::MoveSpanUp => self.move_span_selection_up(store),
            Action::StartSearch => self.start_search(),
            Action::StartFilter => self.start_filter(),
            Action::SearchPush(c) => self.search_push(c),
            Action::SearchBackspace => self.search_backspace(),
            Action::SubmitSearch => self.submit_search(store),
            Action::CancelSearch => self.cancel_search(),
            Action::ClearSearch => self.clear_search(store),
        }
    }

    /// Whether the trace list is due for a reload, `elapsed_millis` after
    /// the last one: it is on screen and the interval has passed.
    pub fn wants_trace_list_refresh(&self, elapsed_millis: u128) -> (r: bool)
        ensures
            r == (self.screen == Screen::TraceList && elapsed_millis >= TRACE_LIST_REFRESH_INTERVAL_MILLIS),
    {
        self.screen == Screen::TraceList && elapsed_millis >= TRACE_LIST_REFRESH_INTERVAL_MILLIS
    }

    /// Whether the current screen has a search set (or, on the trace
    /// detail, a filter), which Esc then clears.
    pub fn has_current_screen_search(&self) -> (r: bool)
        ensures
            r == self@.has_current_screen_search(),
    {
        match self.screen {
            Screen::TraceList => self.trace_list_query.search.is_some(),
            Screen::TraceDetail => self.trace_detail_search.is_some() || self.trace_detail_filter.is_some(),
            Screen::Aggregates => self.aggregate_query.span_name_search.is_some(),
            Screen::AggregateSpans => self.aggregate_spans_search.is_some(),
        }
    }

    fn current_search_text(&self) -> (t: String)
        ensures
            t@ == text_of(self@.search_of(self@.screen)),
    {
        let slot: &Option<String> = match self.screen {
            Screen::TraceList => &self.trace_list_query.search,
            Screen::TraceDetail => &self.trace_detail_search,
            Screen::Aggregates => &self.aggregate_query.span_name_search,
            Screen::AggregateSpans => &self.aggregate_spans_search,
        };
        match slot {
            Some(text) => text.clone(),
            None => String::new(),
        }
    }

    fn set_current_search(&mut self, v: Option<String>)
        ensures
            final(self)@ == old(self)@.with_search(v.deep_view()),
    {
        match self.screen {
            Screen::TraceList => self.trace_list_query.search = v,
            Screen::TraceDetail => self.trace_detail_search = v,
            Screen::Aggregates => self.aggregate_query.span_name_search = v,
            Screen::AggregateSpans => self.aggregate_spans_search = v,
        }
    }

    fn start_search(&mut self)
        ensures
            forall|ts: Seq<TraceView>| final(self)@ == #[trigger] old(self)@.after(Action::StartSearch, ts),
    {
        let text = self.current_search_text();
        self.search = SearchState { active: true, target: SearchTarget::Search, draft: text };
    }

    fn start_filter(&mut self)
        ensures
            forall|ts: Seq<TraceView>| final(self)@ == #[trigger] old(self)@.after(Action::StartFilter, ts),
    {
        match self.screen {
            Screen::TraceDetail => {
                let text = match &self.trace_detail_filter {
                    Some(text) => text.clone(),
                    None => String::new(),
                };
                self.search = SearchState { active: true, target: SearchTarget::Filter, draft: text };
            },
            _ => {},
        }
    }

    fn search_push(&mut self, c: char)
        requires
            !old(self).steps_past_end(Action::SearchPush(c)),
        ensures
            forall|ts: Seq<TraceView>| final(self)@ == #[trigger] old(self)@.after(Action::SearchPush(c), ts),
    {
        if self.search.active {
            push_char(&mut self.search.draft, c);
        }
    }

    fn search_backspace(&mut self)
        ensures
            forall|ts: Seq<TraceView>| final(self)@ == #[trigger] old(self)@.after(Action::SearchBackspace, ts),
    {
        if self.search.active {
            let n: usize = self.search.draft.as_str().unicode_len();
            if n > 0 {
                let shorter = self.search.draft.as_str().substring_char(0, n - 1).to_owned();
                assert(shorter@ =~= self.search.draft@.drop_last());
                self.search.draft = shorter;
            }
        }
    }

    fn submit_search(&mut self, store: &Store)
        requires
            store.wf(),
        ensures
            final(self)@ == old(self)@.after(Action::SubmitSearch, store@),
    {
        if !self.search.active {
            return;
        }
        let value: Option<String> = if self.search.draft.as_str().unicode_len() == 0 {
            None
        } else {
            Some(self.search.draft.clone())
        };
        self.search.active = false;
        self.search.draft = String::new();
        match self.search.target {
            SearchTarget::Filter => match self.screen {
                Screen::TraceDetail => self.trace_detail_filter = value,
                _ => {},
            },
            SearchTarget::Search => {
                self.set_current_search(value);
                match self.screen {
                    Screen::TraceList => self.refresh_trace_list(store),
                    _ => {},
                }
            },
        }
    }

    fn cancel_search(&mut self)
        ensures
            forall|ts: Seq<TraceView>| final(self)@ == #[trigger] old(self)@.after(Action::CancelSearch, ts),
    {
        self.search.active = false;
        self.search.draft = String::new();
    }

    fn clear_search(&mut self, store: &Store)
        requires
            store.wf(),
        ensures
            final(self)@ == old(self)@.after(Action::ClearSearch, store@),
    {
        match self.screen {
            Screen::TraceList => {
                self.trace_list_query.search = None;
                self.refresh_trace_list(store);
            },
            Screen::TraceDetail => {
                self.trace_detail_search = None;
                self.trace_detail_filter = None;
            },
            _ => self.set_current_search(None),
        }
    }

    fn refresh_current_screen(&mut self, store: &Store)
        requires
            store.wf(),
            !old(self).needs_aggregates(Action::RefreshCurrentScreen),
        ensures
            final(self)@ == old(self)@.after(Action::RefreshCurrentScreen, store@),
    {
        match self.screen {
            Screen::TraceList => self.refresh_trace_list(store),
            Screen::TraceDetail => self.refresh_selected_trace(store),
            Screen::Aggregates => {
                // The store serves no aggregates; the precondition rules this out.
                proof {
                    assert(false);
                }
            },
            Screen::AggregateSpans => self.refresh_aggregate_spans(store),
        }
    }

    fn refresh_trace_list(&mut self, store: &Store)
        requires
            store.wf(),
        ensures
            final(self)@ == old(self)@.trace_list_refreshed(store@),
    {
        let query = TraceListQuery {
            limit: self.trace_list_query.limit,
            search: crate::types::clone_option_string(&self.trace_list_query.search),
        };
        self.trace_list = store.recent_traces(query);
        self.clamp_trace_selection();
        self.selected_trace_id = self.trace_id_at(self.selected_trace_index);
    }

    fn trace_id_at(&self, i: usize) -> (id: Option<TraceId>)
        ensures
            id.deep_view() == id_at(self@.trace_list.rows, i as nat),
    {
        if i < self.trace_list.rows.len() {
            Some(self.trace_list.rows[i].trace_id.clone())
        } else {
            None
        }
    }

    fn refresh_selected_trace(&mut self, store: &Store)
        requires
            store.wf(),
        ensures
            final(self)@ == old(self)@.selected_trace_refreshed(store@),
    {
        let trace_id = match &self.selected_trace_id {
            Some(id) => id.clone(),
            None => {
                self.selected_trace = None;
                return;
            },
        };
        let selected_span_id: Option<SpanId> = match &self.selected_trace {
            Some(trace) => if self.selected_span_index < trace.rows.len() {
                Some(trace.rows[self.selected_span_index].span_id.clone())
            } else {
                None
            },
            None => None,
        };
        let selected = match &selected_span_id {
            Some(id) => Some(id),
            None => None,
        };
        self.selected_trace = store.trace_detail(&trace_id, selected);
        self.clamp_span_selection();
    }

    fn refresh_aggregate_spans(&mut self, _store: &Store)
        requires
            old(self).aggregate_spans_query is None,
        ensures
            final(self)@ == (AppView { aggregate_spans: Seq::empty(), selected_aggregate_span_index: 0, ..old(self)@ }),
    {
        // Only the case without a query remains: the store serves no aggregate spans.
        self.aggregate_spans = AggregateSpansSnapshot { rows: Vec::new() };
        self.selected_aggregate_span_index = 0;
    }

    fn open_selected_trace(&mut self, store: &Store)
        requires
            store.wf(),
        ensures
            final(self)@ == old(self)@.after(Action::ShowTraceDetail, store@),
    {
        self.selected_trace_id = self.trace_id_at(self.selected_trace_index);
        self.selected_span_index = 0;
        self.screen = Screen::TraceDetail;
        self.refresh_selected_trace(store);
    }

    fn open_selected_aggregate_row(&mut self, _store: &Store)
        requires
            !old(self).needs_aggregates(Action::ShowAggregateSpans),
        ensures
            final(self)@ == old(self)@,
    {
        // Only the case without a selected row remains: opening a row needs
        // aggregate spans, which the store does not serve.
        if self.selected_aggregate_index < self.aggregate.rows.len() {
            proof {
                assert(false);
            }
        }
    }

    fn open_selected_aggregate_span_trace(&mut self, store: &Store)
        requires
            store.wf(),
        ensures
            final(self)@ == old(self)@.after(Action::OpenAggregateSpanTrace, store@),
    {
        if self.selected_aggregate_span_index >= self.aggregate_spans.rows.len() {
            return;
        }
        let row = &self.aggregate_spans.rows[self.selected_aggregate_span_index];
        let trace_id = row.trace_id.clone();
        let span_id = row.span_id.clone();
        self.open_trace_span(store, trace_id, span_id);
    }

    fn open_trace_span(&mut self, store: &Store, trace_id: TraceId, span_id: SpanId)
        requires
            store.wf(),
        ensures
            final(self)@ == old(self)@.trace_span_opened(store@, trace_id@, span_id@),
    {
        self.selected_trace_id = Some(trace_id.clone());
        self.selected_trace = store.trace_detail(&trace_id, Some(&span_id));
        let index: usize = match &self.selected_trace {
            Some(trace) => match row_index(&trace.rows, &span_id) {
                Some(p) => p,
                None => 0,
            },
            None => 0,
        };
        self.selected_span_index = index;
        self.screen = Screen::TraceDetail;
        self.clamp_span_selection();
    }

    fn move_trace_selection_down(&mut self, store: &Store)
        requires
            store.wf(),
            !old(self).steps_past_end(Action::MoveSelectionDown),
        ensures
            final(self)@ == old(self)@.after(Action::MoveSelectionDown, store@),
    {
        match self.screen {
            Screen::TraceList => {
                if self.selected_trace_index + 1 < self.trace_list.rows.len() {
                    self.selected_trace_index += 1;
                    self.selected_trace_id = self.trace_id_at(self.selected_trace_index);
                } else {
                    self.refresh_trace_list(store);
                }
            },
            Screen::Aggregates => {
                if self.selected_aggregate_index + 1 < self.aggregate.rows.len() {
                    self.selected_aggregate_index += 1;
                }
            },
            Screen::AggregateSpans => {
                if self.selected_aggregate_span_index + 1 < self.aggregate_spans.rows.len() {
                    self.selected_aggregate_span_index += 1;
                }
            },
            Screen::TraceDetail => {},
        }
    }

    fn move_trace_selection_up(&mut self, _store: &Store)
        ensures
            final(self)@ == old(self)@.after(Action::MoveSelectionUp, _store@),
    {
        match self.screen {
            Screen::TraceList => {
                if self.selected_trace_index > 0 {
                    self.selected_trace_index -= 1;
                    self.selected_trace_id = self.trace_id_at(self.selected_trace_index);
                }
            },
            Screen::Aggregates => {
                if self.selected_aggregate_index > 0 {
                    self.selected_aggregate_index -= 1;
                }
            },
            Screen::AggregateSpans => {
                if self.selected_aggregate_span_index > 0 {
                    self.selected_aggregate_span_index -= 1;
                }
            },
            Screen::TraceDetail => {},
        }
    }

    fn move_span_selection_down(&mut self, _store: &Store)
        requires
            !old(self).steps_past_end(Action::MoveSpanDown),
        ensures
            final(self)@ == old(self)@.after(Action::MoveSpanDown, _store@),
    {
        match self.screen {
            Screen::TraceDetail => {},
            _ => return,
        }
        let len: usize = match &self.selected_trace {
            Some(trace) => trace.rows.len(),
            None => return,
        };
        if self.selected_span_index + 1 < len {
            self.selected_span_index += 1;
        }
    }

    fn move_span_selection_up(&mut self, _store: &Store)
        ensures
            final(self)@ == old(self)@.after(Action::MoveSpanUp, _store@),
    {
        let on_detail = match self.screen {
            Screen::TraceDetail => true,
            _ => false,
        };
        if on_detail && self.selected_span_index > 0 {
            self.selected_span_index -= 1;
        }
    }

    fn clamp_trace_selection(&mut self)
        ensures
            final(self)@ == (AppView {
                selected_trace_index: clamp(old(self)@.selected_trace_index, old(self)@.trace_list.rows.len()),
                ..old(self)@
            }),
    {
        if self.trace_list.rows.len() == 0 {
            self.selected_trace_index = 0;
            return;
        }
        if self.selected_trace_index >= self.trace_list.rows.len() {
            self.selected_trace_index = self.trace_list.rows.len() - 1;
        }
    }

    fn clamp_span_selection(&mut self)
        ensures
            final(self)@ == old(self)@.span_clamped(),
    {
        let len: usize = match &self.selected_trace {
            Some(trace) => trace.rows.len(),
            None => {
                self.selected_span_index = 0;
                return;
            },
        };
        if len == 0 {
            self.selected_span_index = 0;
        } else if self.selected_span_index >= len {
            self.selected_span_index = len - 1;
        }
    }
}

fn row_index(rows: &Vec<crate::waterfall::SpanRow>, id: &SpanId) -> (r: Option<usize>)
    ensures
        match r {
            Some(p) => row_position(rows.deep_view(), id@, rows.len() as nat) == Some(p as nat),
            None => row_position(rows.deep_view(), id@, rows.len() as nat) is None,
        },
{
    let mut i: usize = 0;
    while i < rows.len()
        invariant
            i <= rows.len(),
            row_position(rows.deep_view(), id@, i as nat) is None,
        decreases rows.len() - i,
    {
        if rows[i].span_id == *id {
            proof {
                lemma_row_position_stays(rows.deep_view(), id@, (i + 1) as nat, rows.len() as nat);
            }
            return Some(i);
        }
        i = i + 1;
    }
    None
}

proof fn lemma_row_position_stays(rows: Seq<RowView>, id: Seq<char>, m: nat, n: nat)
    requires
        m <= n,
        row_position(rows, id, m) is Some,
    ensures
        row_position(rows, id, n) == row_position(rows, id, m),
    decreases n - m,
{
    if m < n {
        lemma_row_position_stays(rows, id, m, (n - 1) as nat);
    }
}

/// Text is being typed into the search of `screen`, the current screen.
pub open spec fn search_editing(s: AppView, screen: Screen) -> bool {
    s.search_active && s.search_target == SearchTarget::Search && s.screen == screen
}

/// Text is being typed into the span filter of `screen`, the current screen.
pub open spec fn filter_editing(s: AppView, screen: Screen) -> bool {
    s.search_active && s.search_target == SearchTarget::Filter && s.screen == screen
}

/// The text shown for an optional search: the text, or `<none>`.
pub open spec fn label_text(o: Option<Seq<char>>) -> Seq<char> {
    match o {
        Some(t) => t,
        None => "<none>"@,
    }
}

/// The search shown on `screen`: the text being typed while it is edited,
/// else the search set there.
pub open spec fn search_label_of(s: AppView, screen: Screen) -> Seq<char> {
    if search_editing(s, screen) {
        s.search_draft
    } else {
        label_text(s.search_of(screen))
    }
}

/// The span filter shown on `screen`: the text being typed while it is
/// edited, else the trace detail's filter (no screen but the trace detail
/// has one).
pub open spec fn filter_label_of(s: AppView, screen: Screen) -> Seq<char> {
    if filter_editing(s, screen) {
        s.search_draft
    } else if screen == Screen::TraceDetail {
        label_text(s.trace_detail_filter)
    } else {
        "<none>"@
    }
}

/// `name` contains `text`, when there is a text.
pub open spec fn name_matches(name: Seq<char>, text: Option<Seq<char>>) -> bool {
    match text {
        Some(t) => seq_contains_run(name, t),
        None => true,
    }
}

/// The positions, among the first `n` rows, of the spans whose name
/// contains both the search and the filter.
pub open spec fn shown_positions(
    rows: Seq<RowView>,
    search: Option<Seq<char>>,
    filter: Option<Seq<char>>,
    n: nat,
) -> Seq<nat>
    decreases n,
{
    if n == 0 {
        Seq::empty()
    } else {
        let earlier = shown_positions(rows, search, filter, (n - 1) as nat);
        let name = rows[n - 1].name;
        if name_matches(name, search) && name_matches(name, filter) {
            earlier.push((n - 1) as nat)
        } else {
            earlier
        }
    }
}

/// The rows of the selected trace that the trace detail shows, by position.
pub open spec fn visible_rows_of(s: AppView) -> Seq<nat> {
    match s.selected_trace {
        Some(d) => shown_positions(d.rows, s.trace_detail_search, s.trace_detail_filter, d.rows.len()),
        None => Seq::empty(),
    }
}

fn text_matches(name: &String, text: &Option<String>) -> (b: bool)
    ensures
        b == name_matches(name@, text.deep_view()),
{
    match text {
        Some(t) => str_contains(name.as_str(), t.as_str()),
        None => true,
    }
}

fn label_of(o: &Option<String>) -> (t: String)
    ensures
        t@ == label_text(o.deep_view()),
{
    match o {
        Some(text) => text.clone(),
        None => "<none>".to_owned(),
    }
}

impl AppState {
    /// Whether the search of `screen` is being typed.
    pub fn is_search_editing(&self, screen: Screen) -> (r: bool)
        ensures
            r == search_editing(self@, screen),
    {
        self.search.active && self.search.target == SearchTarget::Search && self.screen == screen
    }

    /// Whether the span filter of `screen` is being typed.
    pub fn is_filter_editing(&self, screen: Screen) -> (r: bool)
        ensures
            r == filter_editing(self@, screen),
    {
        self.search.active && self.search.target == SearchTarget::Filter && self.screen == screen
    }

    /// The search text shown on `screen`.
    pub fn search_label(&self, screen: Screen) -> (t: String)
        ensures
            t@ == search_label_of(self@, screen),
    {
        if self.is_search_editing(screen) {
            return self.search.draft.clone();
        }
        match screen {
            Screen::TraceList => label_of(&self.trace_list_query.search),
            Screen::TraceDetail => label_of(&self.trace_detail_search),
            Screen::Aggregates => label_of(&self.aggregate_query.span_name_search),
            Screen::AggregateSpans => label_of(&self.aggregate_spans_search),
        }
    }

    /// The span filter text shown on `screen`.
    pub fn filter_label(&self, screen: Screen) -> (t: String)
        ensures
            t@ == filter_label_of(self@, screen),
    {
        if self.is_filter_editing(screen) {
            return self.search.draft.clone();
        }
        match screen {
            Screen::TraceDetail => label_of(&self.trace_detail_filter),
            _ => "<none>".to_owned(),
        }
    }

    /// The positions of the rows of the selected trace whose span name
    /// contains the trace detail's search and its filter (each when set).
    pub fn trace_detail_visible_rows(&self) -> (v: Vec<usize>)
        ensures
            v@.map_values(|i: usize| i as nat) == visible_rows_of(self@),
    {
        let trace = match &self.selected_trace {
            Some(trace) => trace,
            None => return Vec::new(),
        };
        let mut v: Vec<usize> = Vec::new();
        let mut i: usize = 0;
        while i < trace.rows.len()
            invariant
                self.selected_trace == Some(*trace),
                i <= trace.rows.len(),
                v@.map_values(|i: usize| i as nat) == shown_positions(
                    trace.rows.deep_view(),
                    self.trace_detail_search.deep_view(),
                    self.trace_detail_filter.deep_view(),
                    i as nat,
                ),
            decreases trace.rows.len() - i,
        {
            let name = &trace.rows[i].name;
            if text_matches(name, &self.trace_detail_search) && text_matches(name, &self.trace_detail_filter) {
                v.push(i);
            }
            i = i + 1;
            assert(v@.map_values(|i: usize| i as nat) =~= shown_positions(
                trace.rows.deep_view(),
                self.trace_detail_search.deep_view(),
                self.trace_detail_filter.deep_view(),
                i as nat,
            ));
        }
        v
    }
}

/// `i` is a position in a list of `len` rows, or 0 when there are none.
pub open spec fn index_in_list(i: nat, len: nat) -> bool {
    if len == 0 {
        i == 0
    } else {
        i < len
    }
}

/// Each selection is a row of its list (0 when the list is empty): the
/// trace selection in the trace list, the aggregate selection in the
/// aggregate rows, the aggregate span selection in the aggregate spans, and
/// the span selection in the selected trace's rows.
pub open spec fn selections_in_range(s: AppView) -> bool {
    &&& index_in_list(s.selected_trace_index, s.trace_list.rows.len())
    &&& index_in_list(s.selected_aggregate_index, s.aggregate.len())
    &&& index_in_list(s.selected_aggregate_span_index, s.aggregate_spans.len())
    &&& match s.selected_trace {
        Some(d) => if d.rows.len() == 0 {
            s.selected_span_index == 0
        } else {
            s.selected_span_index < d.rows.len()
        },
        None => true,
    }
}

/// Every action keeps the selections inside their lists.
pub proof fn lemma_after_keeps_selections(s: AppView, action: Action, ts: Seq<TraceView>)
    requires
        selections_in_range(s),
    ensures
        selections_in_range(s.after(action, ts)),
{
    match action {
        Action::SubmitSearch => {
            if s.search_active {
                let v = search_value(s.search_draft);
                let closed = s.editing_closed();
                assert(selections_in_range(closed.with_search(v)));
                lemma_refresh_keeps_selections(closed.with_search(v), ts);
            }
        },
        Action::ClearSearch => {
            assert(selections_in_range(s.with_search(None)));
            lemma_refresh_keeps_selections(s.with_search(None), ts);
        },
        Action::RefreshCurrentScreen => {
            if s.screen == Screen::TraceList {
                lemma_refresh_keeps_selections(s, ts);
            } else if s.screen == Screen::TraceDetail {
                lemma_trace_refresh_keeps_selections(s, ts);
            }
        },
        Action::RefreshTraceList => {
            lemma_refresh_keeps_selections(s, ts);
        },
        Action::ShowTraceList => {
            lemma_refresh_keeps_selections(AppView { screen: Screen::TraceList, ..s }, ts);
        },
        Action::ShowTraceDetail => {
            let opened = AppView {
                selected_trace_id: id_at(s.trace_list.rows, s.selected_trace_index),
                selected_span_index: 0,
                screen: Screen::TraceDetail,
                ..s
            };
            lemma_trace_refresh_keeps_selections(opened, ts);
        },
        Action::OpenAggregateSpanTrace => {
            if s.selected_aggregate_span_index < s.aggregate_spans.len() {
                let row = s.aggregate_spans[s.selected_aggregate_span_index as int];
                lemma_span_opened_keeps_selections(s, ts, row.trace_id@, row.span_id@);
            }
        },
        Action::MoveSelectionDown => {
            if s.screen == Screen::TraceList {
                lemma_refresh_keeps_selections(s, ts);
            }
        },
        _ => {},
    }
}

proof fn lemma_trace_refresh_keeps_selections(s: AppView, ts: Seq<TraceView>)
    requires
        index_in_list(s.selected_trace_index, s.trace_list.rows.len()),
        index_in_list(s.selected_aggregate_index, s.aggregate.len()),
        index_in_list(s.selected_aggregate_span_index, s.aggregate_spans.len()),
    ensures
        selections_in_range(s.selected_trace_refreshed(ts)),
{
}

proof fn lemma_span_opened_keeps_selections(s: AppView, ts: Seq<TraceView>, trace_id: Seq<char>, span_id: Seq<char>)
    requires
        selections_in_range(s),
    ensures
        selections_in_range(s.trace_span_opened(ts, trace_id, span_id)),
{
}

proof fn lemma_refresh_keeps_selections(s: AppView, ts: Seq<TraceView>)
    requires
        selections_in_range(s),
    ensures
        selections_in_range(s.trace_list_refreshed(ts)),
{
}

/// Moving the selection down and then up, where there is a row below,
/// brings it back; on the trace list the selected trace id is then that of
/// the row selected at the start.
pub proof fn lemma_down_then_up(s: AppView, ts: Seq<TraceView>)
    ensures
        s.screen == Screen::TraceList && s.selected_trace_index + 1 < s.trace_list.rows.len() ==>
            s.after(Action::MoveSelectionDown, ts).after(Action::MoveSelectionUp, ts) == (AppView {
                selected_trace_id: id_at(s.trace_list.rows, s.selected_trace_index),
                ..s
            }),
        s.screen == Screen::Aggregates && s.selected_aggregate_index + 1 < s.aggregate.len() ==>
            s.after(Action::MoveSelectionDown, ts).after(Action::MoveSelectionUp, ts) == s,
        s.screen == Screen::AggregateSpans && s.selected_aggregate_span_index + 1 < s.aggregate_spans.len() ==>
            s.after(Action::MoveSelectionDown, ts).after(Action::MoveSelectionUp, ts) == s,
        s.screen == Screen::TraceDetail && (s.selected_trace matches Some(d) && s.selected_span_index + 1 < d.rows.len()) ==>
            s.after(Action::MoveSpanDown, ts).after(Action::MoveSpanUp, ts) == s,
{
}

/// Typing a character and deleting it leaves the typed text as it was.
pub proof fn lemma_push_then_backspace(s: AppView, c: char, ts: Seq<TraceView>)
    requires
        s.search_active,
    ensures
        s.after(Action::SearchPush(c), ts).after(Action::SearchBackspace, ts) == s,
{
    assert(s.search_draft.push(c).drop_last() =~= s.search_draft);
}

/// Cancelling the typed text changes no search or filter and no selection.
pub proof fn lemma_cancel_keeps_searches(s: AppView, ts: Seq<TraceView>)
    ensures
        ({
            let t = s.after(Action::CancelSearch, ts);
            &&& !t.search_active
            &&& t == (AppView { search_active: false, search_draft: Seq::empty(), ..s })
        }),
{
}

/// Starting a search and submitting it untouched leaves the current
/// screen's search as it was (a search is never set to empty text).
pub proof fn lemma_start_then_submit_keeps_search(s: AppView, ts: Seq<TraceView>)
    requires
        s.search_of(s.screen) != Some(Seq::<char>::empty()),
    ensures
        !s.after(Action::StartSearch, ts).after(Action::SubmitSearch, ts).search_active,
        s.after(Action::StartSearch, ts).after(Action::SubmitSearch, ts).search_of(s.screen) == s.search_of(s.screen),
{
    let started = s.after(Action::StartSearch, ts);
    if let Some(t) = s.search_of(s.screen) {
        if t.len() == 0 {
            assert(t =~= Seq::<char>::empty());
        }
    }
    assert(search_value(started.search_draft) == s.search_of(s.screen));
}

/// After reloading the trace list the selected trace id is the id of the
/// selected row (none when the list is empty).
pub proof fn lemma_refresh_selects_row(s: AppView, ts: Seq<TraceView>)
    ensures
        s.trace_list_refreshed(ts).selected_trace_id == id_at(
            s.trace_list_refreshed(ts).trace_list.rows,
            s.trace_list_refreshed(ts).selected_trace_index,
        ),
        s.trace_list_refreshed(ts).trace_list.rows.len() > 0 ==> s.trace_list_refreshed(ts).selected_trace_id is Some,
{
}

} // verus!
