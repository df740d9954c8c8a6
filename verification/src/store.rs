//! The in-memory store of received traces and the snapshots it serves.

use vstd::prelude::*;
use crate::sorting::{sort_by, key_order, sort_positions, all_below, lemma_sort_by_sorted, lemma_sort_by_members, lemma_key_order_total};
use crate::text::{seq_contains_run, str_contains};
use crate::types::{NormalizedSpan, SpanView, Trace, TraceView, TraceId, SpanId, has_span, span_index, min_start, clone_pairs, lemma_with_span};
use crate::waterfall::{SpanRow, RowView, rows_of, waterfall, span_rows};

verus! {

pub struct TraceListQuery {
    pub limit: usize,
    pub search: Option<String>,
}

/// The mathematical form of a `TraceSummary`.
pub struct SummaryView {
    pub trace_id: Seq<char>,
    pub root_name: Option<Seq<char>>,
    pub start_unix_nano: u64,
    pub duration: u64,
    pub span_count: nat,
}

pub struct TraceSummary {
    pub trace_id: TraceId,
    pub root_name: Option<String>,
    /// Absolute wall-clock start timestamp in since unix epoch time
    /// in nanoseconds.
    pub start_unix_nano: u64,
    /// From the earliest start to the latest end, in nanoseconds.
    pub duration: u64,
    pub span_count: usize,
}

impl View for TraceSummary {
    type V = SummaryView;

    open spec fn view(&self) -> SummaryView {
        SummaryView {
            trace_id: self.trace_id@,
            root_name: self.root_name.deep_view(),
            start_unix_nano: self.start_unix_nano,
            duration: self.duration,
            span_count: self.span_count as nat,
        }
    }
}

impl DeepView for TraceSummary {
    type V = SummaryView;

    open spec fn deep_view(&self) -> SummaryView {
        self@
    }
}

pub struct TraceListSnapshot {
    pub rows: Vec<TraceSummary>,
    pub total_traces: usize,
    pub total_spans: usize,
}

/// The mathematical form of a `TraceListSnapshot`.
pub struct ListView {
    pub rows: Seq<SummaryView>,
    pub total_traces: nat,
    pub total_spans: nat,
}

impl View for TraceListSnapshot {
    type V = ListView;

    open spec fn view(&self) -> ListView {
        ListView {
            rows: self.rows.deep_view(),
            total_traces: self.total_traces as nat,
            total_spans: self.total_spans as nat,
        }
    }
}

impl TraceListSnapshot {
    /// The snapshot with no rows and no totals.
    pub fn empty() -> (s: TraceListSnapshot)
        ensures
            s@.rows.len() == 0,
            s@.total_traces == 0,
            s@.total_spans == 0,
    {
        TraceListSnapshot { rows: Vec::new(), total_traces: 0, total_spans: 0 }
    }
}

pub struct SpanDetails {
    pub span_id: SpanId,
    pub name: String,
    /// Absolute wall-clock start timestamp for this span, in Unix epoch nanoseconds.
    pub start_unix_nano: u64,
    /// Absolute wall-clock end timestamp for this span, in Unix epoch nanoseconds.
    pub end_unix_nano: u64,
    pub attributes: Vec<(String, String)>,
}

/// The mathematical form of a `SpanDetails`.
pub struct DetailsView {
    pub span_id: Seq<char>,
    pub name: Seq<char>,
    pub start_unix_nano: u64,
    pub end_unix_nano: u64,
    pub attributes: Seq<(Seq<char>, Seq<char>)>,
}

impl View for SpanDetails {
    type V = DetailsView;

    open spec fn view(&self) -> DetailsView {
        DetailsView {
            span_id: self.span_id@,
            name: self.name@,
            start_unix_nano: self.start_unix_nano,
            end_unix_nano: self.end_unix_nano,
            attributes: self.attributes.deep_view(),
        }
    }
}

impl DeepView for SpanDetails {
    type V = DetailsView;

    open spec fn deep_view(&self) -> DetailsView {
        self@
    }
}

pub struct TraceDetailSnapshot {
    pub rows: Vec<SpanRow>,
    pub selected_span: Option<SpanDetails>,
}

/// The mathematical form of a `TraceDetailSnapshot`.
pub struct DetailView {
    pub rows: Seq<RowView>,
    pub selected_span: Option<DetailsView>,
}

impl View for TraceDetailSnapshot {
    type V = DetailView;

    open spec fn view(&self) -> DetailView {
        DetailView { rows: self.rows.deep_view(), selected_span: self.selected_span.deep_view() }
    }
}

pub struct AggregateQuery {
    pub span_name_search: Option<String>,
    pub group_by_attribute: Option<String>,
}

pub struct AggregateSnapshot {
    pub rows: Vec<AggregateRow>,
}

pub struct AggregateRow {
    pub span_name: String,
    pub group: Option<String>,
    pub calls: usize,
    pub mean_nano: u64,
    pub p50_nano: u64,
    pub p95_nano: u64,
    pub max_nano: u64,
    pub error_count: usize,
}

/// The spans behind one aggregate row.
pub struct AggregateSpansQuery {
    pub span_name: String,
    pub group_by_attribute: Option<String>,
    pub group: Option<String>,
}

pub struct AggregateSpansSnapshot {
    pub rows: Vec<AggregateSpanRow>,
}

pub struct AggregateSpanRow {
    pub trace_id: TraceId,
    pub span_id: SpanId,
    pub span_name: String,
    pub duration_nano: u64,
    pub start_unix_nano: u64,
}

/// Some trace in `ts` has id `id`.
pub open spec fn has_trace(ts: Seq<TraceView>, id: Seq<char>) -> bool {
    exists|i: int| 0 <= i < ts.len() && #[trigger] ts[i].trace_id == id
}

/// The position of a trace with id `id` (the only one where ids are distinct).
pub open spec fn trace_index(ts: Seq<TraceView>, id: Seq<char>) -> int {
    choose|i: int| 0 <= i < ts.len() && #[trigger] ts[i].trace_id == id
}

/// No trace id occurs twice.
pub open spec fn distinct_trace_ids(ts: Seq<TraceView>) -> bool {
    forall|i: int, j: int|
        0 <= i < ts.len() && 0 <= j < ts.len() && i != j ==> #[trigger] ts[i].trace_id
            != #[trigger] ts[j].trace_id
}

/// The number of spans over all traces.
pub open spec fn total_spans(ts: Seq<TraceView>) -> nat
    decreases ts.len(),
{
    if ts.len() == 0 {
        0
    } else {
        total_spans(ts.drop_last()) + ts.last().spans.len()
    }
}

/// The traces after taking in one span: it joins the trace of its trace
/// id, or opens a new trace after the others.
pub open spec fn with_span(ts: Seq<TraceView>, s: SpanView) -> Seq<TraceView> {
    if has_trace(ts, s.trace_id) {
        let i = trace_index(ts, s.trace_id);
        ts.update(i, ts[i].with_span(s))
    } else {
        ts.push(TraceView::opened_by(s))
    }
}

/// The traces after taking in `spans` in order.
pub open spec fn with_spans(ts: Seq<TraceView>, spans: Seq<SpanView>) -> Seq<TraceView>
    decreases spans.len(),
{
    if spans.len() == 0 {
        ts
    } else {
        with_span(with_spans(ts, spans.drop_last()), spans.last())
    }
}

/// What the store satisfies: every trace is well formed, trace ids are
/// distinct, and the number of spans fits in a `usize`.
pub open spec fn store_wf(ts: Seq<TraceView>) -> bool {
    &&& forall|i: int| 0 <= i < ts.len() ==> (#[trigger] ts[i]).wf()
    &&& distinct_trace_ids(ts)
    &&& total_spans(ts) <= usize::MAX
}

/// Some span of `t` has a name in which `search` occurs.
pub open spec fn trace_matches(t: TraceView, search: Option<Seq<char>>) -> bool {
    match search {
        None => true,
        Some(q) => exists|i: int| 0 <= i < t.spans.len() && seq_contains_run(#[trigger] t.spans[i].name, q),
    }
}

/// Positions below `n` of the traces that match `search`, in order.
pub open spec fn matching_positions(ts: Seq<TraceView>, search: Option<Seq<char>>, n: nat) -> Seq<usize>
    decreases n,
{
    if n == 0 {
        Seq::empty()
    } else {
        let r = matching_positions(ts, search, (n - 1) as nat);
        if trace_matches(ts[n - 1], search) {
            r.push((n - 1) as usize)
        } else {
            r
        }
    }
}

/// The latest span times of the traces, by position.
pub open spec fn latest_keys(ts: Seq<TraceView>) -> Seq<u64> {
    Seq::new(ts.len(), |i: int| ts[i].latest_span_time)
}

/// The summary row of a trace.
pub open spec fn summary_of(t: TraceView) -> SummaryView {
    SummaryView {
        trace_id: t.trace_id,
        root_name: t.root_name(),
        start_unix_nano: min_start(t.spans),
        duration: t.duration(),
        span_count: t.spans.len(),
    }
}

/// The positions of the traces that the trace list shows, in its order:
/// the traces that match, most recent latest span time first (stably),
/// at most `limit` of them.
pub open spec fn recent_positions(ts: Seq<TraceView>, query: (nat, Option<Seq<char>>)) -> Seq<usize> {
    let order = sort_by(matching_positions(ts, query.1, ts.len()), key_order(latest_keys(ts), true));
    if query.0 < order.len() {
        order.take(query.0 as int)
    } else {
        order
    }
}

/// The trace list for `query`.
pub open spec fn recent_traces_view(ts: Seq<TraceView>, query: (nat, Option<Seq<char>>)) -> ListView {
    let order = recent_positions(ts, query);
    ListView {
        rows: Seq::new(order.len(), |k: int| summary_of(ts[order[k] as int])),
        total_traces: ts.len(),
        total_spans: total_spans(ts),
    }
}

/// The details panel of a span.
pub open spec fn details_of(s: SpanView) -> DetailsView {
    DetailsView {
        span_id: s.span_id,
        name: s.name,
        start_unix_nano: s.start_unix_nano,
        end_unix_nano: s.end_unix_nano,
        attributes: s.attributes,
    }
}

/// The detail of a trace: its waterfall, and the details of the selected
/// span where the trace has it, else of the span of the first row.
pub open spec fn trace_detail_view(t: TraceView, selected: Option<Seq<char>>) -> DetailView {
    let rows = rows_of(t.spans, waterfall(t.spans));
    DetailView {
        rows,
        selected_span: if selected is Some && has_span(t.spans, selected->0) {
            Some(details_of(t.spans[span_index(t.spans, selected->0)]))
        } else if rows.len() > 0 && has_span(t.spans, rows[0].span_id) {
            Some(details_of(t.spans[span_index(t.spans, rows[0].span_id)]))
        } else {
            None
        },
    }
}

proof fn lemma_total_update(ts: Seq<TraceView>, i: int, t: TraceView)
    requires
        0 <= i < ts.len(),
    ensures
        total_spans(ts.update(i, t)) + ts[i].spans.len() == total_spans(ts) + t.spans.len(),
    decreases ts.len(),
{
    let u = ts.update(i, t);
    if i == ts.len() - 1 {
        assert(u.drop_last() =~= ts.drop_last());
    } else {
        assert(u.drop_last() =~= ts.drop_last().update(i, t));
        lemma_total_update(ts.drop_last(), i, t);
    }
}

proof fn lemma_total_push(ts: Seq<TraceView>, t: TraceView)
    ensures
        total_spans(ts.push(t)) == total_spans(ts) + t.spans.len(),
{
    assert(ts.push(t).drop_last() =~= ts);
}

/// A simple key value store that stores all traces received over the server.
/// The store is responsible for storing and serving all the traces received to
/// any downstream consumers.
pub struct Store {
    traces: Vec<Trace>,
}

impl View for Store {
    type V = Seq<TraceView>;

    closed spec fn view(&self) -> Seq<TraceView> {
        self.traces.deep_view()
    }
}

impl Store {
    /// Whether the store satisfies its invariant.
    pub open spec fn wf(&self) -> bool {
        store_wf(self@)
    }

    pub fn new() -> (s: Store)
        ensures
            s@ == Seq::<TraceView>::empty(),
            s.wf(),
    {
        let s = Store { traces: Vec::new() };
        assert(s@ =~= Seq::<TraceView>::empty());
        s
    }

    /// The traces, in the order their trace ids first arrived.
    pub fn traces(&self) -> (ts: &Vec<Trace>)
        ensures
            ts.deep_view() == self@,
    {
        &self.traces
    }

    fn position_of(&self, trace_id: &TraceId) -> (r: Option<usize>)
        ensures
            match r {
                Some(i) => i < self@.len() && self@[i as int].trace_id == trace_id@,
                None => !has_trace(self@, trace_id@),
            },
    {
        let mut i: usize = 0;
        while i < self.traces.len()
            invariant
                i <= self.traces.len(),
                self@ == self.traces.deep_view(),
                forall|j: int| 0 <= j < i ==> self@[j].trace_id != trace_id@,
            decreases self.traces.len() - i,
        {
            if *self.traces[i].trace_id() == *trace_id {
                return Some(i);
            }
            i = i + 1;
        }
        None
    }

    /// The trace with id `trace_id`, if the store has one.
    pub fn trace(&self, trace_id: &TraceId) -> (t: Option<&Trace>)
        requires
            self.wf(),
        ensures
            match t {
                Some(tr) => has_trace(self@, trace_id@) && tr@ == self@[trace_index(self@, trace_id@)] && tr.wf(),
                None => !has_trace(self@, trace_id@),
            },
    {
        match self.position_of(trace_id) {
            Some(i) => {
                proof {
                    let c = trace_index(self@, trace_id@);
                    assert(self@[i as int].trace_id == trace_id@);
                    assert(c == i as int);
                }
                Some(&self.traces[i])
            },
            None => None,
        }
    }
}

impl Store {
    /// Takes in spans in order: each joins the trace of its trace id, or
    /// opens a new trace.
    ///
    /// This is intentionally silent. Consumers pull snapshots from the store when
    /// they want a refreshed view.
    pub fn insert_spans(&mut self, spans: Vec<NormalizedSpan>)
        requires
            old(self).wf(),
            total_spans(old(self)@) + spans.len() <= usize::MAX,
        ensures
            final(self).wf(),
            final(self)@ == with_spans(old(self)@, spans.deep_view()),
    {
        let ghost sv = spans.deep_view();
        let ghost t0 = self@;
        let mut rest = spans;
        let mut i: usize = 0;
        let ghost n = sv.len();
        while rest.len() > 0
            invariant
                n == sv.len(),
                sv == spans.deep_view(),
                rest.len() + i == n,
                rest.deep_view() =~= sv.skip(i as int),
                self@ == self.traces.deep_view(),
                self.wf(),
                self@ == with_spans(t0, sv.take(i as int)),
                total_spans(self@) <= total_spans(t0) + i,
                total_spans(t0) + n <= usize::MAX,
            decreases rest.len(),
        {
            let ghost rv = rest.deep_view();
            assert(i < n);
            assert(rv[0] == sv[i as int]);
            let ghost old_rest = rest;
            let span = rest.remove(0);
            assert(span@ == rv[0]);
            assert(rest.deep_view() =~= rv.drop_first()) by {
                assert forall|k: int| 0 <= k < rest.deep_view().len() implies rest.deep_view()[k] == rv.drop_first()[k] by {
                    assert(rest@[k] == old_rest@[k + 1]);
                }
            }
            assert(rv.drop_first() =~= sv.skip(i + 1));
            assert(sv.take(i + 1).drop_last() =~= sv.take(i as int));
            assert(sv.take(i + 1).last() == span@);
            let ghost before = self@;
            match self.position_of(&span.trace_id) {
                Some(p) => {
                    proof {
                        let c = trace_index(before, span@.trace_id);
                        assert(before[p as int].trace_id == span@.trace_id);
                        assert(c == p as int);
                        assert(before[p as int].wf());
                    }
                    self.traces[p].insert_span(span);
                    proof {
                        let after = self@;
                        assert(after =~= before.update(p as int, before[p as int].with_span(sv[i as int])));
                        lemma_total_update(before, p as int, after[p as int]);
                        assert(after[p as int].spans.len() <= before[p as int].spans.len() + 1);
                        assert forall|a: int, b: int| 0 <= a < after.len() && 0 <= b < after.len() && a != b
                            implies #[trigger] after[a].trace_id != #[trigger] after[b].trace_id by {
                            assert(after[a].trace_id == before[a].trace_id);
                            assert(after[b].trace_id == before[b].trace_id);
                        }
                    }
                },
                None => {
                    let t = Trace::new_from_normalized_span(span);
                    self.traces.push(t);
                    proof {
                        let after = self@;
                        assert(after =~= before.push(TraceView::opened_by(sv[i as int])));
                        lemma_total_push(before, after.last());
                        let n1 = before.len() as int;
                        assert forall|a: int, b: int| 0 <= a < after.len() && 0 <= b < after.len() && a != b
                            implies #[trigger] after[a].trace_id != #[trigger] after[b].trace_id by {
                            if a == n1 {
                                assert(after[b] == before[b]);
                            } else if b == n1 {
                                assert(after[a] == before[a]);
                            } else {
                                assert(after[a] == before[a] && after[b] == before[b]);
                            }
                        }
                        assert forall|a: int| 0 <= a < after.len() implies (#[trigger] after[a]).wf() by {
                            if a < n1 {
                                assert(after[a] == before[a]);
                            }
                        }
                    }
                },
            }
            i = i + 1;
        }
        assert(sv.take(n as int) =~= sv);
    }
}

proof fn lemma_total_prefix(ts: Seq<TraceView>, i: int)
    requires
        0 <= i <= ts.len(),
    ensures
        total_spans(ts.take(i)) <= total_spans(ts),
    decreases ts.len() - i,
{
    if i < ts.len() {
        lemma_total_prefix(ts, i + 1);
        assert(ts.take(i + 1).drop_last() =~= ts.take(i));
    } else {
        assert(ts.take(i) =~= ts);
    }
}

fn matches_search(t: &Trace, search: &Option<String>) -> (b: bool)
    ensures
        b == trace_matches(t@, search.deep_view()),
{
    match search {
        None => true,
        Some(q) => {
            let spans = t.spans();
            let mut i: usize = 0;
            while i < spans.len()
                invariant
                    search.deep_view() == Some(q@),
                    spans.deep_view() == t@.spans,
                    i <= spans.len(),
                    forall|j: int| 0 <= j < i ==> !seq_contains_run(#[trigger] t@.spans[j].name, q@),
                decreases spans.len() - i,
            {
                if str_contains(spans[i].name.as_str(), q.as_str()) {
                    assert(spans.deep_view()[i as int] == spans@[i as int]@);
                    assert(seq_contains_run(t@.spans[i as int].name, q@));
                    assert(trace_matches(t@, Some(q@)));
                    return true;
                }
                i = i + 1;
            }
            false
        },
    }
}

fn summarize(t: &Trace) -> (s: TraceSummary)
    requires
        t.wf(),
    ensures
        s@ == summary_of(t@),
{
    let root_name = match t.root_name() {
        Some(name) => Some(name.to_owned()),
        None => None,
    };
    TraceSummary {
        trace_id: t.trace_id().clone(),
        root_name,
        start_unix_nano: t.start_unix_nano(),
        duration: t.duration(),
        span_count: t.span_count(),
    }
}

fn detail_of_span(s: &NormalizedSpan) -> (d: SpanDetails)
    ensures
        d@ == details_of(s@),
{
    SpanDetails {
        span_id: s.span_id.clone(),
        name: s.name.clone(),
        start_unix_nano: s.start_unix_nano,
        end_unix_nano: s.end_unix_nano,
        attributes: clone_pairs(&s.attributes),
    }
}

impl Store {
    /// The number of spans over all traces.
    pub fn span_total(&self) -> (n: usize)
        requires
            self.wf(),
        ensures
            n == total_spans(self@),
    {
        let mut total: usize = 0;
        let mut i: usize = 0;
        while i < self.traces.len()
            invariant
                self@ == self.traces.deep_view(),
                store_wf(self@),
                i <= self.traces.len(),
                total == total_spans(self@.take(i as int)),
            decreases self.traces.len() - i,
        {
            proof {
                assert(self@.take(i + 1).drop_last() =~= self@.take(i as int));
                lemma_total_prefix(self@, i + 1);
            }
            total = total + self.traces[i].span_count();
            i = i + 1;
        }
        assert(self@.take(i as int) =~= self@);
        total
    }

    /// Returns a list of most recent traces based on the query: the traces
    /// with a span whose name contains the search text (all traces without
    /// one), the latest span time first, at most `limit` of them; and the
    /// totals over the whole store.
    pub fn recent_traces(&self, query: TraceListQuery) -> (snapshot: TraceListSnapshot)
        requires
            self.wf(),
        ensures
            snapshot@ == recent_traces_view(self@, (query.limit as nat, query.search.deep_view())),
    {
        let ghost ts = self@;
        let ghost search = query.search.deep_view();
        let mut matching: Vec<usize> = Vec::new();
        let mut keys: Vec<u64> = Vec::new();
        let mut i: usize = 0;
        while i < self.traces.len()
            invariant
                ts == self@,
                self@ == self.traces.deep_view(),
                search == query.search.deep_view(),
                i <= self.traces.len(),
                matching@ == matching_positions(ts, search, i as nat),
                all_below(matching@, i as nat),
                keys@ =~= latest_keys(ts).take(i as int),
            decreases self.traces.len() - i,
        {
            if matches_search(&self.traces[i], &query.search) {
                matching.push(i);
            }
            keys.push(self.traces[i].latest_span_time());
            i = i + 1;
        }
        assert(keys@ =~= latest_keys(ts));
        let order = sort_positions(&keys, &matching, true);
        let n: usize = if query.limit < order.len() {
            query.limit
        } else {
            order.len()
        };
        let ghost shown = recent_positions(ts, (query.limit as nat, search));
        assert(shown =~= order@.take(n as int));
        let mut rows: Vec<TraceSummary> = Vec::new();
        let mut k: usize = 0;
        while k < n
            invariant
                ts == self@,
                self@ == self.traces.deep_view(),
                store_wf(ts),
                n <= order.len(),
                all_below(order@, ts.len()),
                shown =~= order@.take(n as int),
                k <= n,
                rows.deep_view() =~= Seq::new(k as nat, |j: int| summary_of(ts[shown[j] as int])),
            decreases n - k,
        {
            let p = order[k];
            assert(ts[p as int].wf());
            let row = summarize(&self.traces[p]);
            assert(shown[k as int] == p);
            let ghost before = rows.deep_view();
            rows.push(row);
            assert(rows.deep_view() =~= before.push(row@));
            k = k + 1;
        }
        let total_spans = self.span_total();
        TraceListSnapshot { rows, total_traces: self.traces.len(), total_spans }
    }

    /// The detail of the trace with id `trace_id`, if the store has one: its
    /// waterfall, and the details of the span `selected_span` where the
    /// trace has it, else of the span in the first row.
    pub fn trace_detail(&self, trace_id: &TraceId, selected_span: Option<&SpanId>) -> (detail:
        Option<TraceDetailSnapshot>)
        requires
            self.wf(),
        ensures
            match detail {
                Some(d) => has_trace(self@, trace_id@) && d@ == trace_detail_view(
                    self@[trace_index(self@, trace_id@)],
                    selected_span.deep_view(),
                ),
                None => !has_trace(self@, trace_id@),
            },
    {
        let trace = match self.trace(trace_id) {
            Some(t) => t,
            None => return None,
        };
        let rows = span_rows(trace.spans());
        let chosen = match selected_span {
            Some(id) => trace.span(id),
            None => None,
        };
        let chosen = match chosen {
            Some(s) => Some(s),
            None => if rows.len() > 0 {
                trace.span(&rows[0].span_id)
            } else {
                None
            },
        };
        let selected = match chosen {
            Some(s) => Some(detail_of_span(s)),
            None => None,
        };
        let d = TraceDetailSnapshot { rows, selected_span: selected };
        assert(d@.rows == rows_of(trace@.spans, waterfall(trace@.spans)));
        Some(d)
    }
}

/// Every trace is well formed and no trace id occurs twice.
pub open spec fn traces_ok(ts: Seq<TraceView>) -> bool {
    &&& forall|i: int| 0 <= i < ts.len() ==> (#[trigger] ts[i]).wf()
    &&& distinct_trace_ids(ts)
}

/// The store has a trace with id `id` holding a span with id `span_id`.
pub open spec fn holds(ts: Seq<TraceView>, id: Seq<char>, span_id: Seq<char>) -> bool {
    has_trace(ts, id) && has_span(ts[trace_index(ts, id)].spans, span_id)
}

/// Taking in one span keeps the traces well formed with distinct ids; the
/// span is then held under its trace id and span id, and every span held
/// before is still held.
pub proof fn lemma_with_span_holds(ts: Seq<TraceView>, s: SpanView)
    requires
        traces_ok(ts),
    ensures
        traces_ok(with_span(ts, s)),
        holds(with_span(ts, s), s.trace_id, s.span_id),
        forall|id: Seq<char>, sid: Seq<char>| #[trigger] holds(ts, id, sid) ==> holds(with_span(ts, s), id, sid),
{
    let r = with_span(ts, s);
    if has_trace(ts, s.trace_id) {
        let i = trace_index(ts, s.trace_id);
        lemma_with_span(ts[i], s);
        assert(r[i] == ts[i].with_span(s));
        assert forall|a: int| 0 <= a < r.len() implies (#[trigger] r[a]).wf() by {
            if a != i {
                assert(r[a] == ts[a]);
            }
        }
        assert forall|a: int, b: int| 0 <= a < r.len() && 0 <= b < r.len() && a != b implies #[trigger] r[a].trace_id
            != #[trigger] r[b].trace_id by {
            assert(r[a].trace_id == ts[a].trace_id && r[b].trace_id == ts[b].trace_id);
        }
        assert(trace_index(r, s.trace_id) == i) by {
            assert(r[i].trace_id == s.trace_id);
        }
        assert forall|id: Seq<char>, sid: Seq<char>| #[trigger] holds(ts, id, sid) implies holds(r, id, sid) by {
            let j = trace_index(ts, id);
            assert(r[j].trace_id == id);
            assert(trace_index(r, id) == j);
            if j == i {
                let k = span_index(ts[i].spans, sid);
                if sid != s.span_id {
                    assert(ts[i].spans[k].span_id == sid);
                }
            } else {
                assert(r[j] == ts[j]);
            }
        }
    } else {
        let n = ts.len() as int;
        let t = TraceView::opened_by(s);
        assert(t.spans[0].span_id == s.span_id);
        assert(t.wf()) by {
            assert(t.spans =~= seq![s]);
        }
        assert forall|a: int| 0 <= a < r.len() implies (#[trigger] r[a]).wf() by {
            if a != n {
                assert(r[a] == ts[a]);
            }
        }
        assert forall|a: int, b: int| 0 <= a < r.len() && 0 <= b < r.len() && a != b implies #[trigger] r[a].trace_id
            != #[trigger] r[b].trace_id by {
            if a == n {
                assert(r[b] == ts[b]);
            } else if b == n {
                assert(r[a] == ts[a]);
            } else {
                assert(r[a] == ts[a] && r[b] == ts[b]);
            }
        }
        assert(r[n].trace_id == s.trace_id);
        assert(trace_index(r, s.trace_id) == n);
        assert forall|id: Seq<char>, sid: Seq<char>| #[trigger] holds(ts, id, sid) implies holds(r, id, sid) by {
            let j = trace_index(ts, id);
            assert(r[j] == ts[j]);
            assert(trace_index(r, id) == j);
        }
    }
}

/// After taking in spans, the store holds every one of them under its
/// trace id and span id, still holds every span it held before, and keeps
/// its traces well formed with distinct ids.
pub proof fn lemma_with_spans_holds(ts: Seq<TraceView>, spans: Seq<SpanView>)
    requires
        traces_ok(ts),
    ensures
        traces_ok(with_spans(ts, spans)),
        forall|k: int| 0 <= k < spans.len() ==> holds(with_spans(ts, spans), #[trigger] spans[k].trace_id, spans[k].span_id),
        forall|id: Seq<char>, sid: Seq<char>| #[trigger] holds(ts, id, sid) ==> holds(with_spans(ts, spans), id, sid),
    decreases spans.len(),
{
    if spans.len() > 0 {
        let d = spans.drop_last();
        lemma_with_spans_holds(ts, d);
        let mid = with_spans(ts, d);
        lemma_with_span_holds(mid, spans.last());
        assert forall|k: int| 0 <= k < spans.len() implies holds(with_spans(ts, spans), #[trigger] spans[k].trace_id, spans[k].span_id) by {
            if k < d.len() {
                assert(spans[k] == d[k]);
                assert(holds(mid, d[k].trace_id, d[k].span_id));
            }
        }
        assert forall|id: Seq<char>, sid: Seq<char>| #[trigger] holds(ts, id, sid) implies holds(with_spans(ts, spans), id, sid) by {
            assert(holds(mid, id, sid));
        }
    }
}

/// Taking in a batch `a` followed by `b` gives the same traces as taking in
/// `a` and then `b`; an empty batch changes nothing.
pub proof fn lemma_with_spans_concat(ts: Seq<TraceView>, a: Seq<SpanView>, b: Seq<SpanView>)
    ensures
        with_spans(ts, a + b) == with_spans(with_spans(ts, a), b),
        with_spans(ts, Seq::empty()) == ts,
    decreases b.len(),
{
    if b.len() == 0 {
        assert(a + b =~= a);
    } else {
        lemma_with_spans_concat(ts, a, b.drop_last());
        assert((a + b).drop_last() =~= a + b.drop_last());
        assert((a + b).last() == b.last());
    }
}

/// The trace list shows at most `limit` traces, each at most once, each
/// matching the search, with the latest span time never increasing down
/// the list.
pub proof fn lemma_trace_list_order(ts: Seq<TraceView>, query: (nat, Option<Seq<char>>))
    requires
        ts.len() <= usize::MAX,
    ensures
        recent_positions(ts, query).len() <= query.0,
        recent_positions(ts, query).no_duplicates(),
        forall|k: int| 0 <= k < recent_positions(ts, query).len() ==> {
            &&& #[trigger] recent_positions(ts, query)[k] < ts.len()
            &&& trace_matches(ts[recent_positions(ts, query)[k] as int], query.1)
        },
        forall|a: int, b: int| 0 <= a < b < recent_positions(ts, query).len() ==> ts[#[trigger] recent_positions(ts, query)[a] as int].latest_span_time
            >= ts[#[trigger] recent_positions(ts, query)[b] as int].latest_span_time,
{
    let m = matching_positions(ts, query.1, ts.len());
    let le = key_order(latest_keys(ts), true);
    let order = sort_by(m, le);
    let shown = recent_positions(ts, query);
    lemma_matching_positions(ts, query.1, ts.len());
    lemma_key_order_total(latest_keys(ts), true);
    lemma_sort_by_sorted(m, le);
    lemma_sort_by_members(m, le);
    crate::sorting::lemma_sort_by_multiset(m, le);
    assert forall|k: int| 0 <= k < shown.len() implies {
        &&& #[trigger] shown[k] < ts.len()
        &&& trace_matches(ts[shown[k] as int], query.1)
    } by {
        assert(shown[k] == order[k]);
        assert(m.contains(order[k]));
    }
    assert forall|a: int, b: int| 0 <= a < b < shown.len() implies ts[#[trigger] shown[a] as int].latest_span_time
        >= ts[#[trigger] shown[b] as int].latest_span_time by {
        assert(shown[a] == order[a] && shown[b] == order[b]);
        assert(le(order[a], order[b]));
        assert(latest_keys(ts)[shown[a] as int] == ts[shown[a] as int].latest_span_time);
        assert(latest_keys(ts)[shown[b] as int] == ts[shown[b] as int].latest_span_time);
    }
    assert forall|a: int, b: int| 0 <= a < shown.len() && 0 <= b < shown.len() && a != b implies shown[a] != shown[b] by {
        assert(shown[a] == order[a] && shown[b] == order[b]);
    }
}

proof fn lemma_matching_positions_complete(ts: Seq<TraceView>, search: Option<Seq<char>>, n: nat)
    requires
        n <= ts.len(),
        n <= usize::MAX,
    ensures
        matching_positions(ts, search, n).len() <= n,
        forall|p: int| 0 <= p < n && trace_matches(#[trigger] ts[p], search) ==> matching_positions(ts, search, n).contains(
            p as usize,
        ),
    decreases n,
{
    if n > 0 {
        lemma_matching_positions_complete(ts, search, (n - 1) as nat);
        let r = matching_positions(ts, search, (n - 1) as nat);
        let q = matching_positions(ts, search, n);
        if trace_matches(ts[n - 1], search) {
            assert(q == r.push((n - 1) as usize));
            assert(q[r.len() as int] == (n - 1) as usize);
            assert forall|p: int| 0 <= p < n && trace_matches(#[trigger] ts[p], search) implies q.contains(p as usize) by {
                if p < n - 1 {
                    let m = choose|m: int| 0 <= m < r.len() && r[m] == p as usize;
                    assert(q[m] == r[m]);
                }
            }
        }
    }
}

/// With a search text, every row of the trace list is a trace that has a
/// span whose name contains the text; and when the limit is at least the
/// number of traces, every such trace has a row.
pub proof fn lemma_trace_list_search(ts: Seq<TraceView>, limit: nat, q: Seq<char>)
    requires
        ts.len() <= usize::MAX,
    ensures
        ({
            let rows = recent_traces_view(ts, (limit, Some(q))).rows;
            &&& forall|k: int| 0 <= k < rows.len() ==> exists|p: int, i: int|
                0 <= p < ts.len() && 0 <= i < ts[p].spans.len() && (#[trigger] rows[k]).trace_id == ts[p].trace_id
                    && seq_contains_run(#[trigger] ts[p].spans[i].name, q)
            &&& limit >= ts.len() ==> forall|p: int, i: int|
                0 <= p < ts.len() && 0 <= i < ts[p].spans.len() && seq_contains_run(#[trigger] ts[p].spans[i].name, q)
                    ==> exists|k: int| 0 <= k < rows.len() && (#[trigger] rows[k]).trace_id == ts[p].trace_id
        }),
{
    broadcast use vstd::seq_lib::group_to_multiset_ensures;

    let query = (limit, Some(q));
    let m = matching_positions(ts, Some(q), ts.len());
    let le = key_order(latest_keys(ts), true);
    let order = sort_by(m, le);
    let shown = recent_positions(ts, query);
    let rows = recent_traces_view(ts, query).rows;
    lemma_trace_list_order(ts, query);
    lemma_matching_positions_complete(ts, Some(q), ts.len());
    crate::sorting::lemma_sort_by_multiset(m, le);
    assert forall|k: int| 0 <= k < rows.len() implies exists|p: int, i: int|
        0 <= p < ts.len() && 0 <= i < ts[p].spans.len() && (#[trigger] rows[k]).trace_id == ts[p].trace_id
            && seq_contains_run(#[trigger] ts[p].spans[i].name, q) by {
        let p = shown[k] as int;
        assert(shown[k] < ts.len());
        assert(trace_matches(ts[p], Some(q)));
        let i = choose|i: int| 0 <= i < ts[p].spans.len() && seq_contains_run(#[trigger] ts[p].spans[i].name, q);
        assert(rows[k].trace_id == ts[p].trace_id);
    }
    if limit >= ts.len() {
        assert(shown == order);
        assert forall|p: int, i: int|
            0 <= p < ts.len() && 0 <= i < ts[p].spans.len() && seq_contains_run(#[trigger] ts[p].spans[i].name, q)
            implies exists|k: int| 0 <= k < rows.len() && (#[trigger] rows[k]).trace_id == ts[p].trace_id by {
            assert(trace_matches(ts[p], Some(q)));
            assert(m.contains(p as usize));
            assert(m.to_multiset().count(p as usize) > 0);
            assert(order.contains(p as usize));
            let k = choose|k: int| 0 <= k < order.len() && order[k] == p as usize;
            assert(rows[k].trace_id == ts[p].trace_id);
        }
    }
}

proof fn lemma_matching_positions(ts: Seq<TraceView>, search: Option<Seq<char>>, n: nat)
    requires
        n <= ts.len(),
        n <= usize::MAX,
    ensures
        matching_positions(ts, search, n).no_duplicates(),
        forall|k: int| 0 <= k < matching_positions(ts, search, n).len() ==> {
            &&& #[trigger] matching_positions(ts, search, n)[k] < n
            &&& trace_matches(ts[matching_positions(ts, search, n)[k] as int], search)
        },
    decreases n,
{
    if n > 0 {
        lemma_matching_positions(ts, search, (n - 1) as nat);
        let r = matching_positions(ts, search, (n - 1) as nat);
        let q = matching_positions(ts, search, n);
        if trace_matches(ts[n - 1], search) {
            assert(q == r.push((n - 1) as usize));
            assert forall|k: int| 0 <= k < q.len() implies {
                &&& #[trigger] q[k] < n
                &&& trace_matches(ts[q[k] as int], search)
            } by {
                if k < r.len() {
                    assert(q[k] == r[k]);
                }
            }
            assert forall|a: int, b: int| 0 <= a < q.len() && 0 <= b < q.len() && a != b implies q[a] != q[b] by {
                if a < r.len() && b < r.len() {
                    assert(q[a] == r[a] && q[b] == r[b]);
                } else if a < r.len() {
                    assert(q[a] == r[a]);
                } else {
                    assert(q[b] == r[b]);
                }
            }
        }
    }
}

} // verus!
