//! The logic of the HTTP query API: span statistics, the span list and
//! report, and the trace view with each span's children.

use vstd::prelude::*;
use crate::sorting::{sort_by, value_le, sort_values, key_order, sort_positions, all_below, lemma_insert_by_at, total_preorder, lemma_sort_by_sorted, lemma_sort_by_members, lemma_sort_by_multiset, lemma_key_order_total};
use crate::text::{lex_le, str_le, lemma_lex_total, lemma_lex_trans};
use crate::types::{NormalizedSpan, SpanView, Trace, TraceView, saturating_diff, min_start, clone_option_string, clone_pairs};
use crate::waterfall::start_keys;
use crate::store::{Store, total_spans, store_wf, has_trace, trace_index};

verus! {

/// The default number of slowest spans a report lists.
pub const DEFAULT_SLOWEST_LIMIT: usize = 25;

/// The most slowest spans a report lists.
pub const MAX_SLOWEST_LIMIT: usize = 500;

pub struct SpanStatsResponse {
    pub calls: usize,
    pub total_duration_nano: u64,
    pub mean_nano: u64,
    pub p50_nano: u64,
    pub p95_nano: u64,
    pub p99_nano: u64,
    pub max_nano: u64,
}

/// The mathematical form of `SpanStatsResponse`.
pub struct StatsView {
    pub calls: nat,
    pub total_duration_nano: u64,
    pub mean_nano: u64,
    pub p50_nano: u64,
    pub p95_nano: u64,
    pub p99_nano: u64,
    pub max_nano: u64,
}

impl View for SpanStatsResponse {
    type V = StatsView;

    open spec fn view(&self) -> StatsView {
        StatsView {
            calls: self.calls as nat,
            total_duration_nano: self.total_duration_nano,
            mean_nano: self.mean_nano,
            p50_nano: self.p50_nano,
            p95_nano: self.p95_nano,
            p99_nano: self.p99_nano,
            max_nano: self.max_nano,
        }
    }
}

/// The duration of a span: end minus start, 0 when the end comes first.
pub open spec fn duration_of(s: SpanView) -> u64 {
    saturating_diff(s.end_unix_nano, s.start_unix_nano)
}

/// The duration of a span, in nanoseconds: end minus start, 0 when the end
/// comes first.
pub fn span_duration_nano(span: &NormalizedSpan) -> (d: u64)
    ensures
        d == duration_of(span@),
{
    if span.end_unix_nano >= span.start_unix_nano {
        span.end_unix_nano - span.start_unix_nano
    } else {
        0
    }
}

/// The position that the nearest-rank method picks for the `percentile`-th
/// percentile of `len` sorted values: the smallest rank that covers the
/// percentile, counted from 0, and never past the last value.
pub open spec fn nearest_rank_index(len: nat, percentile: nat) -> int {
    let rank = (len * percentile + 99) / 100;
    if rank - 1 < len - 1 {
        rank - 1
    } else {
        len - 1
    }
}

/// The `percentile`-th percentile of sorted values by nearest rank, 0 when
/// there are none.
pub open spec fn percentile_of(sorted: Seq<u64>, percentile: nat) -> u64 {
    if sorted.len() == 0 {
        0
    } else {
        sorted[nearest_rank_index(sorted.len(), percentile)]
    }
}

/// The `percentile`-th percentile of `sorted_values` by nearest rank, 0 when
/// there are none.
pub fn percentile_nearest_rank(sorted_values: &[u64], percentile: usize) -> (v: u64)
    requires
        sorted_values@.len() * percentile <= usize::MAX,
        sorted_values@.len() == 0 || percentile > 0,
    ensures
        v == percentile_of(sorted_values@, percentile as nat),
{
    if sorted_values.len() == 0 {
        return 0;
    }
    let len = sorted_values.len();
    let product: usize = len * percentile;
    let rank: usize = if product % 100 == 0 {
        product / 100
    } else {
        product / 100 + 1
    };
    assert(rank == (len * percentile + 99) / 100);
    assert(rank >= 1) by (nonlinear_arith)
        requires
            len >= 1,
            percentile >= 1,
            product == len * percentile,
            rank == (product + 99) / 100,
    ;
    let index: usize = rank - 1;
    let last: usize = len - 1;
    let pick: usize = if index < last {
        index
    } else {
        last
    };
    sorted_values[pick]
}

/// The sum of `s`.
pub open spec fn seq_sum(s: Seq<u64>) -> nat
    decreases s.len(),
{
    if s.len() == 0 {
        0
    } else {
        seq_sum(s.drop_last()) + (s.last() as nat)
    }
}

/// `v` capped to the largest `u64`.
pub open spec fn cap_u64(v: int) -> u64 {
    if v < u64::MAX {
        v as u64
    } else {
        u64::MAX
    }
}

/// The statistics of a list of durations: count, capped total and mean
/// (rounded down), the 50th, 95th and 99th percentiles by nearest rank,
/// and the largest; all 0 for no durations.
pub open spec fn stats_of(durations: Seq<u64>) -> StatsView {
    let sorted = sort_by(durations, value_le());
    let total = seq_sum(sorted);
    StatsView {
        calls: durations.len(),
        total_duration_nano: cap_u64(total as int),
        mean_nano: if durations.len() == 0 {
            0
        } else {
            cap_u64(total as int / durations.len() as int)
        },
        p50_nano: percentile_of(sorted, 50),
        p95_nano: percentile_of(sorted, 95),
        p99_nano: percentile_of(sorted, 99),
        max_nano: if sorted.len() == 0 {
            0
        } else {
            sorted.last()
        },
    }
}

proof fn lemma_sum_bound(s: Seq<u64>)
    ensures
        seq_sum(s) <= s.len() * u64::MAX,
    decreases s.len(),
{
    if s.len() > 0 {
        lemma_sum_bound(s.drop_last());
        assert(seq_sum(s) <= s.len() * u64::MAX) by (nonlinear_arith)
            requires
                seq_sum(s.drop_last()) <= (s.len() - 1) * u64::MAX,
                seq_sum(s) == seq_sum(s.drop_last()) + s.last(),
                s.last() <= u64::MAX,
        ;
    }
}

/// The statistics of `durations` (see `stats_of`).
pub fn span_stats(durations: Vec<u64>) -> (stats: SpanStatsResponse)
    requires
        durations.len() * 99 <= usize::MAX,
    ensures
        stats@ == stats_of(durations@),
{
    let sorted = sort_values(&durations);
    proof {
        crate::sorting::lemma_sort_by_multiset(durations@, value_le());
    }
    let calls = sorted.len();
    let mut total: u128 = 0;
    let mut i: usize = 0;
    while i < sorted.len()
        invariant
            i <= sorted.len(),
            total == seq_sum(sorted@.take(i as int)),
        decreases sorted.len() - i,
    {
        proof {
            assert(sorted@.take(i + 1).drop_last() =~= sorted@.take(i as int));
            lemma_sum_bound(sorted@.take(i + 1));
            assert((i + 1) * u64::MAX < u128::MAX) by (nonlinear_arith)
                requires
                    i < usize::MAX,
            ;
        }
        total = total + sorted[i] as u128;
        i = i + 1;
    }
    assert(sorted@.take(i as int) =~= sorted@);
    let cap: u128 = u64::MAX as u128;
    let total_duration_nano: u64 = if total < cap {
        total as u64
    } else {
        u64::MAX
    };
    let mean_nano: u64 = if calls == 0 {
        0
    } else {
        let mean: u128 = total / (calls as u128);
        if mean < cap {
            mean as u64
        } else {
            u64::MAX
        }
    };
    let max_nano: u64 = if calls == 0 {
        0
    } else {
        sorted[calls - 1]
    };
    SpanStatsResponse {
        calls,
        total_duration_nano,
        mean_nano,
        p50_nano: percentile_nearest_rank(sorted.as_slice(), 50),
        p95_nano: percentile_nearest_rank(sorted.as_slice(), 95),
        p99_nano: percentile_nearest_rank(sorted.as_slice(), 99),
        max_nano,
    }
}

/// The ids of the spans among the first `n` whose parent is `id`, in span order.
pub open spec fn child_ids(spans: Seq<SpanView>, id: Seq<char>, n: nat) -> Seq<Seq<char>>
    decreases n,
{
    if n == 0 {
        Seq::empty()
    } else {
        let r = child_ids(spans, id, (n - 1) as nat);
        if spans[n - 1].parent_span_id == Some(id) {
            r.push(spans[n - 1].span_id)
        } else {
            r
        }
    }
}

/// The ids of the spans whose parent is `id`, in span order.
pub open spec fn children_ids(spans: Seq<SpanView>, id: Seq<char>) -> Seq<Seq<char>> {
    child_ids(spans, id, spans.len())
}

/// The child lists of a span list: each key with the ids of its children,
/// at least one, keys distinct, and a key for every parent.
pub open spec fn children_map_ok(spans: Seq<SpanView>, m: Seq<(Seq<char>, Seq<Seq<char>>)>, n: nat) -> bool {
    &&& forall|e: int| 0 <= e < m.len() ==> (#[trigger] m[e]).1 == child_ids(spans, m[e].0, n)
    &&& forall|e: int| 0 <= e < m.len() ==> (#[trigger] m[e]).1.len() > 0
    &&& forall|e1: int, e2: int| 0 <= e1 < m.len() && 0 <= e2 < m.len() && e1 != e2 ==> (#[trigger] m[e1]).0 != (#[trigger] m[e2]).0
    &&& forall|j: int| 0 <= j < n && (#[trigger] spans[j]).parent_span_id is Some ==> exists|e: int| 0 <= e < m.len() && (#[trigger] m[e]).0 == spans[j].parent_span_id->0
}

proof fn lemma_no_children(spans: Seq<SpanView>, id: Seq<char>, n: nat)
    requires
        n <= spans.len(),
        forall|j: int| 0 <= j < n ==> (#[trigger] spans[j]).parent_span_id != Some(id),
    ensures
        child_ids(spans, id, n) == Seq::<Seq<char>>::empty(),
    decreases n,
{
    if n > 0 {
        lemma_no_children(spans, id, (n - 1) as nat);
    }
}

/// Groups the span ids of a trace by the id of their parent; spans
/// without a parent are left out.
pub fn children_by_parent(trace: &Trace) -> (m: Vec<(String, Vec<String>)>)
    ensures
        children_map_ok(trace@.spans, m.deep_view(), trace@.spans.len()),
{
    let spans = trace.spans();
    let ghost sp = trace@.spans;
    let mut m: Vec<(String, Vec<String>)> = Vec::new();
    let mut j: usize = 0;
    while j < spans.len()
        invariant
            spans.deep_view() == sp,
            j <= spans.len(),
            children_map_ok(sp, m.deep_view(), j as nat),
        decreases spans.len() - j,
    {
        let ghost before = m.deep_view();
        match &spans[j].parent_span_id {
            Some(p) => {
                let mut k: usize = 0;
                while k < m.len() && !(m[k].0 == *p)
                    invariant
                        k <= m.len(),
                        before == m.deep_view(),
                        forall|e: int| 0 <= e < k ==> before[e].0 != p@,
                    decreases m.len() - k,
                {
                    k = k + 1;
                }
                let id = spans[j].span_id.clone();
                assert(sp[j as int] == spans@[j as int]@);
                assert(sp[j as int].parent_span_id == Some(p@));
                assert(sp[j as int].span_id == id@);
                if k < m.len() {
                    assert(before[k as int].0 == p@);
                    let ghost old_m = m@;
                    m[k].1.push(id);
                    proof {
                        let after = m.deep_view();
                        assert(m@.len() == old_m.len());
                        assert forall|e: int| 0 <= e < old_m.len() && e != k implies m@[e] == old_m[e] by {}
                        assert(m@[k as int].0 == old_m[k as int].0);
                        assert(m@[k as int].1@ == old_m[k as int].1@.push(id));
                        assert(after.len() == before.len());
                        assert forall|e: int| 0 <= e < after.len() implies (#[trigger] after[e]).1 == child_ids(sp, after[e].0, (j + 1) as nat) by {
                            if e == k as int {
                                assert(after[e].1 =~= before[e].1.push(sp[j as int].span_id));
                            } else {
                                assert(after[e] == before[e]);
                                assert(before[e].0 != p@);
                            }
                        }
                        assert forall|e1: int, e2: int| 0 <= e1 < after.len() && 0 <= e2 < after.len() && e1 != e2 implies (#[trigger] after[e1]).0 != (#[trigger] after[e2]).0 by {
                            assert(after[e1].0 == before[e1].0 && after[e2].0 == before[e2].0);
                        }
                        assert forall|e: int| 0 <= e < after.len() implies (#[trigger] after[e]).1.len() > 0 by {
                            if e != k as int {
                                assert(after[e] == before[e]);
                            }
                        }
                        assert forall|i: int| 0 <= i < j + 1 && (#[trigger] sp[i]).parent_span_id is Some implies exists|e: int| 0 <= e < after.len() && (#[trigger] after[e]).0 == sp[i].parent_span_id->0 by {
                            if i == j as int {
                                assert(after[k as int].0 == p@);
                            } else {
                                let e = choose|e: int| 0 <= e < before.len() && (#[trigger] before[e]).0 == sp[i].parent_span_id->0;
                                assert(after[e].0 == before[e].0);
                            }
                        }
                    }
                } else {
                    let mut kids: Vec<String> = Vec::new();
                    kids.push(id);
                    m.push((p.clone(), kids));
                    proof {
                        let after = m.deep_view();
                        let n = before.len() as int;
                        assert forall|i: int| 0 <= i < j implies (#[trigger] sp[i]).parent_span_id != Some(p@) by {
                            if sp[i].parent_span_id == Some(p@) {
                                let e = choose|e: int| 0 <= e < before.len() && (#[trigger] before[e]).0 == sp[i].parent_span_id->0;
                            }
                        }
                        lemma_no_children(sp, p@, j as nat);
                        assert(after[n].1 =~= child_ids(sp, p@, (j + 1) as nat));
                        assert forall|e: int| 0 <= e < after.len() implies (#[trigger] after[e]).1 == child_ids(sp, after[e].0, (j + 1) as nat) by {
                            if e < n {
                                assert(after[e] == before[e]);
                            }
                        }
                        assert forall|e: int| 0 <= e < after.len() implies (#[trigger] after[e]).1.len() > 0 by {
                            if e < n {
                                assert(after[e] == before[e]);
                            }
                        }
                        assert forall|e1: int, e2: int| 0 <= e1 < after.len() && 0 <= e2 < after.len() && e1 != e2 implies (#[trigger] after[e1]).0 != (#[trigger] after[e2]).0 by {
                            if e1 < n {
                                assert(after[e1] == before[e1]);
                            }
                            if e2 < n {
                                assert(after[e2] == before[e2]);
                            }
                        }
                        assert forall|i: int| 0 <= i < j + 1 && (#[trigger] sp[i]).parent_span_id is Some implies exists|e: int| 0 <= e < after.len() && (#[trigger] after[e]).0 == sp[i].parent_span_id->0 by {
                            if i == j as int {
                                assert(after[n].0 == p@);
                            } else {
                                let e = choose|e: int| 0 <= e < before.len() && (#[trigger] before[e]).0 == sp[i].parent_span_id->0;
                                assert(after[e] == before[e]);
                            }
                        }
                    }
                }
            },
            None => {
                proof {
                    let after = m.deep_view();
                    assert(sp[j as int] == spans@[j as int]@);
                    assert(sp[j as int].parent_span_id is None);
                    assert forall|e: int| 0 <= e < after.len() implies (#[trigger] after[e]).1 == child_ids(sp, after[e].0, (j + 1) as nat) by {
                        assert(child_ids(sp, after[e].0, (j + 1) as nat) == child_ids(sp, after[e].0, j as nat));
                    }
                }
            },
        }
        j = j + 1;
    }
    m
}

/// The children of span `id` in a map that `children_by_parent` built.
fn children_from(m: &Vec<(String, Vec<String>)>, id: &String, Ghost(spans): Ghost<Seq<SpanView>>) -> (r: Vec<String>)
    requires
        children_map_ok(spans, m.deep_view(), spans.len()),
    ensures
        r.deep_view() == children_ids(spans, id@),
{
    let mut k: usize = 0;
    while k < m.len()
        invariant
            children_map_ok(spans, m.deep_view(), spans.len()),
            k <= m.len(),
            forall|e: int| 0 <= e < k ==> m.deep_view()[e].0 != id@,
        decreases m.len() - k,
    {
        if m[k].0 == *id {
            let kids = &m[k].1;
            let mut r: Vec<String> = Vec::new();
            let mut i: usize = 0;
            while i < kids.len()
                invariant
                    i <= kids.len(),
                    r.len() == i,
                    r.deep_view() =~= kids.deep_view().take(i as int),
                decreases kids.len() - i,
            {
                let c = kids[i].clone();
                r.push(c);
                assert(r.deep_view()[i as int] == kids.deep_view()[i as int]);
                i = i + 1;
            }
            assert(kids.deep_view().take(i as int) =~= kids.deep_view());
            assert(m.deep_view()[k as int].1 == kids.deep_view());
            assert(m.deep_view()[k as int].0 == id@);
            return r;
        }
        k = k + 1;
    }
    proof {
        assert forall|j: int| 0 <= j < spans.len() implies (#[trigger] spans[j]).parent_span_id != Some(id@) by {
            if spans[j].parent_span_id == Some(id@) {
                let e = choose|e: int| 0 <= e < m.deep_view().len() && (#[trigger] m.deep_view()[e]).0 == spans[j].parent_span_id->0;
            }
        }
        lemma_no_children(spans, id@, spans.len());
    }
    Vec::new()
}

/// Lexicographic order on strings.
pub open spec fn text_le() -> spec_fn(Seq<char>, Seq<char>) -> bool {
    |a: Seq<char>, b: Seq<char>| lex_le(a, b)
}

/// Sorts strings in lexicographic order.
pub fn sort_strings(v: Vec<String>) -> (r: Vec<String>)
    ensures
        r.deep_view() == sort_by(v.deep_view(), text_le()),
{
    let ghost le = text_le();
    let ghost vv = v.deep_view();
    let mut r: Vec<String> = Vec::new();
    let mut i: usize = 0;
    assert(vv.take(0) =~= Seq::<Seq<char>>::empty());
    while i < v.len()
        invariant
            le == text_le(),
            vv == v.deep_view(),
            i <= v.len(),
            r.deep_view() == sort_by(vv.take(i as int), le),
        decreases v.len() - i,
    {
        let x = v[i].clone();
        let mut k: usize = 0;
        while k < r.len() && str_le(r[k].as_str(), x.as_str())
            invariant
                le == text_le(),
                k <= r.len(),
                forall|j: int| 0 <= j < k ==> le(#[trigger] r.deep_view()[j], x@),
            decreases r.len() - k,
        {
            k = k + 1;
        }
        let ghost before = r.deep_view();
        proof {
            lemma_insert_by_at(before, x@, le, k as int);
            assert(vv.take(i + 1).drop_last() =~= vv.take(i as int));
            assert(vv.take(i + 1).last() == x@);
        }
        r.insert(k, x);
        assert(r.deep_view() =~= before.insert(k as int, x@));
        i = i + 1;
    }
    assert(vv.take(v.len() as int) =~= vv);
    r
}

pub struct SpanResponse {
    pub trace_id: String,
    pub span_id: String,
    pub parent_span_id: Option<String>,
    pub name: String,
    pub start_time_unix_nano: u64,
    pub duration_nano: u64,
    pub attributes: Vec<(String, String)>,
    pub children: Vec<String>,
}

/// The mathematical form of a `SpanResponse`.
pub struct ResponseView {
    pub trace_id: Seq<char>,
    pub span_id: Seq<char>,
    pub parent_span_id: Option<Seq<char>>,
    pub name: Seq<char>,
    pub start_time_unix_nano: u64,
    pub duration_nano: u64,
    pub attributes: Seq<(Seq<char>, Seq<char>)>,
    pub children: Seq<Seq<char>>,
}

impl View for SpanResponse {
    type V = ResponseView;

    open spec fn view(&self) -> ResponseView {
        ResponseView {
            trace_id: self.trace_id@,
            span_id: self.span_id@,
            parent_span_id: self.parent_span_id.deep_view(),
            name: self.name@,
            start_time_unix_nano: self.start_time_unix_nano,
            duration_nano: self.duration_nano,
            attributes: self.attributes.deep_view(),
            children: self.children.deep_view(),
        }
    }
}

impl DeepView for SpanResponse {
    type V = ResponseView;

    open spec fn deep_view(&self) -> ResponseView {
        self@
    }
}

/// How the API shows a span with the given children: children sorted.
pub open spec fn response_of(s: SpanView, children: Seq<Seq<char>>) -> ResponseView {
    ResponseView {
        trace_id: s.trace_id,
        span_id: s.span_id,
        parent_span_id: s.parent_span_id,
        name: s.name,
        start_time_unix_nano: s.start_unix_nano,
        duration_nano: duration_of(s),
        attributes: s.attributes,
        children: sort_by(children, text_le()),
    }
}

/// How the API shows a span with the given children, sorted.
pub fn span_response(span: &NormalizedSpan, children: Vec<String>) -> (r: SpanResponse)
    ensures
        r@ == response_of(span@, children.deep_view()),
{
    let children = sort_strings(children);
    SpanResponse {
        trace_id: span.trace_id.clone(),
        span_id: span.span_id.clone(),
        parent_span_id: clone_option_string(&span.parent_span_id),
        name: span.name.clone(),
        start_time_unix_nano: span.start_unix_nano,
        duration_nano: span_duration_nano(span),
        attributes: clone_pairs(&span.attributes),
        children,
    }
}

pub struct TraceResponse {
    pub trace_id: String,
    pub root_name: Option<String>,
    pub start_time_unix_nano: u64,
    pub duration_nano: u64,
    pub span_count: usize,
    pub spans: Vec<SpanResponse>,
}

/// The mathematical form of a `TraceResponse`.
pub struct TraceResponseView {
    pub trace_id: Seq<char>,
    pub root_name: Option<Seq<char>>,
    pub start_time_unix_nano: u64,
    pub duration_nano: u64,
    pub span_count: nat,
    pub spans: Seq<ResponseView>,
}

impl View for TraceResponse {
    type V = TraceResponseView;

    open spec fn view(&self) -> TraceResponseView {
        TraceResponseView {
            trace_id: self.trace_id@,
            root_name: self.root_name.deep_view(),
            start_time_unix_nano: self.start_time_unix_nano,
            duration_nano: self.duration_nano,
            span_count: self.span_count as nat,
            spans: self.spans.deep_view(),
        }
    }
}

/// The positions `0..n`.
pub open spec fn positions(n: nat) -> Seq<usize> {
    Seq::new(n, |i: int| i as usize)
}

/// How the API shows a trace: its spans with their children, by start
/// time (stably).
pub open spec fn trace_response_of(t: TraceView) -> TraceResponseView {
    let order = sort_by(positions(t.spans.len()), key_order(start_keys(t.spans), false));
    TraceResponseView {
        trace_id: t.trace_id,
        root_name: t.root_name(),
        start_time_unix_nano: min_start(t.spans),
        duration_nano: t.duration(),
        span_count: t.spans.len(),
        spans: Seq::new(order.len(), |k: int| response_of(t.spans[order[k] as int], children_ids(t.spans, t.spans[order[k] as int].span_id))),
    }
}

/// The trace's start time in the API's answer, and in the trace list's
/// row, is the earliest start among its spans: at most every span's start,
/// and the start of one of them. The answer lists its spans by start time.
pub proof fn lemma_trace_start_is_earliest(t: TraceView)
    requires
        t.spans.len() > 0,
    ensures
        forall|i: int| 0 <= i < t.spans.len() ==> trace_response_of(t).start_time_unix_nano
            <= #[trigger] t.spans[i].start_unix_nano,
        exists|i: int| 0 <= i < t.spans.len() && trace_response_of(t).start_time_unix_nano
            == #[trigger] t.spans[i].start_unix_nano,
        crate::store::summary_of(t).start_unix_nano == trace_response_of(t).start_time_unix_nano,
        trace_response_of(t).span_count == t.spans.len(),
        forall|a: int, b: int| 0 <= a < b < trace_response_of(t).spans.len() ==>
            (#[trigger] trace_response_of(t).spans[a]).start_time_unix_nano
                <= (#[trigger] trace_response_of(t).spans[b]).start_time_unix_nano,
{
    crate::types::lemma_min_start(t.spans);
    let keys = start_keys(t.spans);
    let le = key_order(keys, false);
    let order = sort_by(positions(t.spans.len()), le);
    lemma_key_order_total(keys, false);
    lemma_sort_by_sorted(positions(t.spans.len()), le);
    lemma_sort_by_members(positions(t.spans.len()), le);
    lemma_sort_by_multiset(positions(t.spans.len()), le);
    let r = trace_response_of(t);
    assert forall|a: int, b: int| 0 <= a < b < r.spans.len() implies
        (#[trigger] r.spans[a]).start_time_unix_nano <= (#[trigger] r.spans[b]).start_time_unix_nano by {
        assert(le(order[a], order[b]));
        assert(positions(t.spans.len()).contains(order[a]));
        assert(positions(t.spans.len()).contains(order[b]));
        assert(r.spans[a].start_time_unix_nano == t.spans[order[a] as int].start_unix_nano);
        assert(r.spans[b].start_time_unix_nano == t.spans[order[b] as int].start_unix_nano);
    }
}

fn all_positions(n: usize) -> (r: Vec<usize>)
    ensures
        r@ == positions(n as nat),
{
    let mut r: Vec<usize> = Vec::new();
    let mut i: usize = 0;
    while i < n
        invariant
            i <= n,
            r@ =~= positions(i as nat),
        decreases n - i,
    {
        r.push(i);
        i = i + 1;
    }
    r
}

/// How the API shows a trace (see `trace_response_of`).
pub fn trace_response(trace: &Trace) -> (r: TraceResponse)
    requires
        trace.wf(),
    ensures
        r@ == trace_response_of(trace@),
{
    let ghost t = trace@;
    let spans = trace.spans();
    let m = children_by_parent(trace);
    let mut keys: Vec<u64> = Vec::new();
    let mut i: usize = 0;
    while i < spans.len()
        invariant
            spans.deep_view() == t.spans,
            i <= spans.len(),
            keys@ =~= start_keys(t.spans).take(i as int),
        decreases spans.len() - i,
    {
        keys.push(spans[i].start_unix_nano);
        i = i + 1;
    }
    assert(keys@ =~= start_keys(t.spans));
    let all = all_positions(spans.len());
    let order = sort_positions(&keys, &all, false);
    let mut out: Vec<SpanResponse> = Vec::new();
    let mut k: usize = 0;
    while k < order.len()
        invariant
            spans.deep_view() == t.spans,
            keys.len() == spans.len(),
            children_map_ok(t.spans, m.deep_view(), t.spans.len()),
            all_below(order@, keys.len() as nat),
            order@ == sort_by(positions(t.spans.len()), key_order(start_keys(t.spans), false)),
            k <= order.len(),
            out.deep_view() =~= Seq::new(k as nat, |j: int| response_of(t.spans[order@[j] as int], children_ids(t.spans, t.spans[order@[j] as int].span_id))),
        decreases order.len() - k,
    {
        let p = order[k];
        let kids = children_from(&m, &spans[p].span_id, Ghost(t.spans));
        let resp = span_response(&spans[p], kids);
        let ghost before = out.deep_view();
        out.push(resp);
        assert(out.deep_view() =~= before.push(resp@));
        k = k + 1;
    }
    let root_name = match trace.root_name() {
        Some(name) => Some(name.to_owned()),
        None => None,
    };
    TraceResponse {
        trace_id: trace.trace_id().clone(),
        root_name,
        start_time_unix_nano: trace.start_unix_nano(),
        duration_nano: trace.duration(),
        span_count: trace.span_count(),
        spans: out,
    }
}

/// The (trace, span) positions of the first `m` spans of trace `i`.
pub open spec fn trace_pairs(i: usize, m: nat) -> Seq<(usize, usize)> {
    Seq::new(m, |j: int| (i, j as usize))
}

/// The (trace, span) positions of all spans, trace by trace.
pub open spec fn span_pairs(ts: Seq<TraceView>) -> Seq<(usize, usize)>
    decreases ts.len(),
{
    if ts.len() == 0 {
        Seq::empty()
    } else {
        span_pairs(ts.drop_last()) + trace_pairs((ts.len() - 1) as usize, ts.last().spans.len())
    }
}

/// The span at a (trace, span) position.
pub open spec fn span_at(ts: Seq<TraceView>, p: (usize, usize)) -> SpanView {
    ts[p.0 as int].spans[p.1 as int]
}

/// The distinct span names at `ps`, in order of first occurrence.
pub open spec fn group_names(ts: Seq<TraceView>, ps: Seq<(usize, usize)>) -> Seq<Seq<char>>
    decreases ps.len(),
{
    if ps.len() == 0 {
        Seq::empty()
    } else {
        let r = group_names(ts, ps.drop_last());
        let name = span_at(ts, ps.last()).name;
        if r.contains(name) {
            r
        } else {
            r.push(name)
        }
    }
}

/// The durations of the spans at `ps` named `name`, in order.
pub open spec fn named_durations(ts: Seq<TraceView>, ps: Seq<(usize, usize)>, name: Seq<char>) -> Seq<u64>
    decreases ps.len(),
{
    if ps.len() == 0 {
        Seq::empty()
    } else {
        let r = named_durations(ts, ps.drop_last(), name);
        let s = span_at(ts, ps.last());
        if s.name == name {
            r.push(duration_of(s))
        } else {
            r
        }
    }
}

/// The positions among `ps` of the spans named `name`, in order.
pub open spec fn named_pairs(ts: Seq<TraceView>, ps: Seq<(usize, usize)>, name: Seq<char>) -> Seq<(usize, usize)>
    decreases ps.len(),
{
    if ps.len() == 0 {
        Seq::empty()
    } else {
        let r = named_pairs(ts, ps.drop_last(), name);
        if span_at(ts, ps.last()).name == name {
            r.push(ps.last())
        } else {
            r
        }
    }
}

proof fn lemma_span_pairs_len(ts: Seq<TraceView>)
    ensures
        span_pairs(ts).len() == total_spans(ts),
    decreases ts.len(),
{
    if ts.len() > 0 {
        lemma_span_pairs_len(ts.drop_last());
    }
}

proof fn lemma_span_pairs_take(ts: Seq<TraceView>, i: int)
    requires
        0 <= i < ts.len(),
    ensures
        span_pairs(ts.take(i + 1)) == span_pairs(ts.take(i)) + trace_pairs(i as usize, ts[i].spans.len()),
{
    assert(ts.take(i + 1).drop_last() =~= ts.take(i));
}

proof fn lemma_span_pairs_valid(ts: Seq<TraceView>, ts_all: Seq<TraceView>)
    requires
        ts.len() <= ts_all.len(),
        ts.len() <= usize::MAX,
        forall|i: int| 0 <= i < ts.len() ==> ts[i] == ts_all[i],
    ensures
        forall|k: int| 0 <= k < span_pairs(ts).len() ==> (#[trigger] span_pairs(ts)[k]).0 < ts.len()
            && span_pairs(ts)[k].1 < ts_all[span_pairs(ts)[k].0 as int].spans.len(),
    decreases ts.len(),
{
    if ts.len() > 0 {
        let d = ts.drop_last();
        lemma_span_pairs_valid(d, ts_all);
        let a = span_pairs(d);
        let b = trace_pairs((ts.len() - 1) as usize, ts.last().spans.len());
        assert forall|k: int| 0 <= k < span_pairs(ts).len() implies (#[trigger] span_pairs(ts)[k]).0 < ts.len()
            && span_pairs(ts)[k].1 < ts_all[span_pairs(ts)[k].0 as int].spans.len() by {
            if k < a.len() {
                assert(span_pairs(ts)[k] == a[k]);
            } else {
                assert(span_pairs(ts)[k] == b[k - a.len()]);
            }
        }
    }
}

proof fn lemma_group_names(ts: Seq<TraceView>, ps: Seq<(usize, usize)>, name: Seq<char>)
    ensures
        group_names(ts, ps).contains(name) <==> exists|k: int| 0 <= k < ps.len() && #[trigger] span_at(ts, ps[k]).name == name,
        !group_names(ts, ps).contains(name) ==> named_durations(ts, ps, name) == Seq::<u64>::empty(),
        group_names(ts, ps).no_duplicates(),
        named_durations(ts, ps, name).len() <= ps.len(),
    decreases ps.len(),
{
    if ps.len() > 0 {
        let d = ps.drop_last();
        lemma_group_names(ts, d, name);
        let last_name = span_at(ts, ps.last()).name;
        let r = group_names(ts, d);
        let g = group_names(ts, ps);
        assert(forall|k: int| 0 <= k < d.len() ==> d[k] == ps[k]);
        if r.contains(last_name) {
            assert(g == r);
        } else {
            assert(g == r.push(last_name));
            assert forall|x: int, y: int| 0 <= x < g.len() && 0 <= y < g.len() && x != y implies g[x] != g[y] by {
                if x < r.len() && y < r.len() {
                } else if x < r.len() {
                    assert(r.contains(r[x]));
                } else {
                    assert(r.contains(r[y]));
                }
            }
            if g.contains(name) && !r.contains(name) {
                let k = choose|k: int| 0 <= k < g.len() && g[k] == name;
                if k < r.len() {
                    assert(r.contains(g[k]));
                }
            }
            if r.contains(name) {
                let k = choose|k: int| 0 <= k < r.len() && r[k] == name;
                assert(g[k] == name);
            }
            if name == last_name {
                assert(g[r.len() as int] == name);
            }
        }
        if exists|k: int| 0 <= k < ps.len() && #[trigger] span_at(ts, ps[k]).name == name {
            let k = choose|k: int| 0 <= k < ps.len() && #[trigger] span_at(ts, ps[k]).name == name;
            if k < d.len() {
                assert(span_at(ts, d[k]).name == name);
                assert(r.contains(name));
            } else {
                assert(ps[k] == ps.last());
                assert(last_name == name);
            }
        }
        if r.contains(name) {
            let k = choose|k: int| 0 <= k < d.len() && #[trigger] span_at(ts, d[k]).name == name;
            assert(span_at(ts, ps[k]).name == name);
        }
        if g.contains(name) && !r.contains(name) {
            assert(last_name == name);
            assert(span_at(ts, ps[ps.len() - 1]).name == name);
        }
    }
}

pub struct SpanSummaryResponse {
    pub name: String,
    pub stats: SpanStatsResponse,
}

/// The mathematical form of a `SpanSummaryResponse`.
pub struct SummaryResponseView {
    pub name: Seq<char>,
    pub stats: StatsView,
}

impl View for SpanSummaryResponse {
    type V = SummaryResponseView;

    open spec fn view(&self) -> SummaryResponseView {
        SummaryResponseView { name: self.name@, stats: self.stats@ }
    }
}

impl DeepView for SpanSummaryResponse {
    type V = SummaryResponseView;

    open spec fn deep_view(&self) -> SummaryResponseView {
        self@
    }
}

pub struct SpanListResponse {
    pub spans: Vec<SpanSummaryResponse>,
}

/// The order of the span list: more calls first, then names in
/// lexicographic order.
pub open spec fn summary_le() -> spec_fn(SummaryResponseView, SummaryResponseView) -> bool {
    |a: SummaryResponseView, b: SummaryResponseView|
        a.stats.calls > b.stats.calls || (a.stats.calls == b.stats.calls && lex_le(a.name, b.name))
}

/// The span list over all traces: for each span name, the statistics of the
/// durations of the spans with that name; more calls first, then by name.
pub open spec fn span_list_of(ts: Seq<TraceView>) -> Seq<SummaryResponseView> {
    let ps = span_pairs(ts);
    let names = group_names(ts, ps);
    sort_by(
        Seq::new(names.len(), |k: int| SummaryResponseView { name: names[k], stats: stats_of(named_durations(ts, ps, names[k])) }),
        summary_le(),
    )
}

fn summary_before(a: &SpanSummaryResponse, b: &SpanSummaryResponse) -> (r: bool)
    ensures
        r == summary_le()(a@, b@),
{
    a.stats.calls > b.stats.calls || (a.stats.calls == b.stats.calls && str_le(a.name.as_str(), b.name.as_str()))
}

fn sort_summaries(v: Vec<SpanSummaryResponse>) -> (r: Vec<SpanSummaryResponse>)
    ensures
        r.deep_view() == sort_by(v.deep_view(), summary_le()),
{
    let ghost le = summary_le();
    let ghost vv = v.deep_view();
    let mut rest = v;
    let mut r: Vec<SpanSummaryResponse> = Vec::new();
    let mut i: usize = 0;
    let ghost n = vv.len();
    assert(n == rest.len());
    assert(vv.take(0) =~= Seq::<SummaryResponseView>::empty());
    while rest.len() > 0
        invariant
            le == summary_le(),
            n == vv.len(),
            n <= usize::MAX,
            rest.len() + i == n,
            rest.deep_view() =~= vv.skip(i as int),
            r.deep_view() == sort_by(vv.take(i as int), le),
        decreases rest.len(),
    {
        let ghost rv = rest.deep_view();
        let ghost old_rest = rest;
        assert(rv[0] == vv[i as int]);
        let x = rest.remove(0);
        assert(x@ == rv[0]);
        assert(rest.deep_view() =~= rv.drop_first()) by {
            assert forall|k: int| 0 <= k < rest.deep_view().len() implies rest.deep_view()[k] == rv.drop_first()[k] by {
                assert(rest@[k] == old_rest@[k + 1]);
            }
        }
        assert(rv.drop_first() =~= vv.skip(i + 1));
        let mut k: usize = 0;
        while k < r.len() && summary_before(&r[k], &x)
            invariant
                le == summary_le(),
                k <= r.len(),
                forall|j: int| 0 <= j < k ==> le(#[trigger] r.deep_view()[j], x@),
            decreases r.len() - k,
        {
            k = k + 1;
        }
        let ghost before = r.deep_view();
        proof {
            crate::sorting::lemma_insert_by_at(before, x@, le, k as int);
            assert(vv.take(i + 1).drop_last() =~= vv.take(i as int));
            assert(vv.take(i + 1).last() == x@);
        }
        let ghost xv = x@;
        r.insert(k, x);
        assert(r.deep_view() =~= before.insert(k as int, xv));
        i = i + 1;
    }
    assert(vv.take(n as int) =~= vv);
    r
}

/// The span list over all traces of the store (see `span_list_of`).
pub fn span_list_response(store: &Store) -> (list: SpanListResponse)
    requires
        store.wf(),
        total_spans(store@) <= usize::MAX / 100,
    ensures
        list.spans.deep_view() == span_list_of(store@),
{
    let ghost ts = store@;
    let traces = store.traces();
    assert(ts.len() == traces.len());
    proof {
        lemma_span_pairs_len(ts);
        lemma_span_pairs_valid(ts, ts);
    }
    let mut names: Vec<String> = Vec::new();
    let mut durations: Vec<Vec<u64>> = Vec::new();
    let mut i: usize = 0;
    assert(ts.take(0) =~= Seq::<TraceView>::empty());
    while i < traces.len()
        invariant
            traces.deep_view() == ts,
            store_wf(ts),
            total_spans(ts) <= usize::MAX / 100,
            span_pairs(ts).len() == total_spans(ts),
            i <= traces.len(),
            names.len() == durations.len(),
            names.deep_view() == group_names(ts, span_pairs(ts.take(i as int))),
            forall|e: int| 0 <= e < durations.len() ==> (#[trigger] durations@[e])@ == named_durations(ts, span_pairs(ts.take(i as int)), names.deep_view()[e]),
        decreases traces.len() - i,
    {
        let spans = traces[i].spans();
        let ghost base = span_pairs(ts.take(i as int));
        let mut j: usize = 0;
        assert(base + trace_pairs(i, 0) =~= base);
        while j < spans.len()
            invariant
                traces.deep_view() == ts,
                i < traces.len(),
                spans.deep_view() == ts[i as int].spans,
                j <= spans.len(),
                names.len() == durations.len(),
                names.deep_view() == group_names(ts, base + trace_pairs(i, j as nat)),
                forall|e: int| 0 <= e < durations.len() ==> (#[trigger] durations@[e])@ == named_durations(ts, base + trace_pairs(i, j as nat), names.deep_view()[e]),
            decreases spans.len() - j,
        {
            let ghost pre = base + trace_pairs(i, j as nat);
            let ghost post = base + trace_pairs(i, (j + 1) as nat);
            assert(post.drop_last() =~= pre);
            assert(post.last() == (i, j));
            assert(span_at(ts, (i, j)) == spans.deep_view()[j as int]);
            let d = span_duration_nano(&spans[j]);
            let name = &spans[j].name;
            let mut k: usize = 0;
            while k < names.len() && !(names[k] == *name)
                invariant
                    k <= names.len(),
                    forall|e: int| 0 <= e < k ==> names.deep_view()[e] != name@,
                decreases names.len() - k,
            {
                k = k + 1;
            }
            proof {
                lemma_group_names(ts, pre, name@);
            }
            if k < names.len() {
                assert(names.deep_view()[k as int] == name@);
                assert(group_names(ts, pre).contains(name@));
                let ghost old_d = durations@;
                durations[k].push(d);
                proof {
                    assert(names.deep_view() == group_names(ts, post));
                    assert forall|e: int| 0 <= e < durations.len() implies (#[trigger] durations@[e])@ == named_durations(ts, post, names.deep_view()[e]) by {
                        if e != k as int {
                            assert(durations@[e] == old_d[e]);
                            assert(names.deep_view()[e] != name@) by {
                                assert(group_names(ts, pre).no_duplicates());
                            }
                        }
                    }
                }
            } else {
                assert(!group_names(ts, pre).contains(name@)) by {
                    if group_names(ts, pre).contains(name@) {
                        let e = choose|e: int| 0 <= e < group_names(ts, pre).len() && group_names(ts, pre)[e] == name@;
                    }
                }
                let mut fresh: Vec<u64> = Vec::new();
                fresh.push(d);
                let ghost old_names = names.deep_view();
                let ghost old_d = durations@;
                names.push(name.clone());
                durations.push(fresh);
                proof {
                    assert(names.deep_view() =~= old_names.push(name@));
                    assert forall|e: int| 0 <= e < durations.len() implies (#[trigger] durations@[e])@ == named_durations(ts, post, names.deep_view()[e]) by {
                        if e < old_d.len() {
                            assert(durations@[e] == old_d[e]);
                            assert(names.deep_view()[e] == old_names[e]);
                            assert(old_names.contains(old_names[e]));
                        } else {
                            assert(named_durations(ts, pre, name@) == Seq::<u64>::empty());
                            assert(durations@[e]@ =~= seq![d]);
                        }
                    }
                }
            }
            j = j + 1;
        }
        proof {
            lemma_span_pairs_take(ts, i as int);
            assert(trace_pairs(i, spans.len() as nat) == trace_pairs(i, ts[i as int].spans.len()));
        }
        i = i + 1;
    }
    assert(ts.take(traces.len() as int) =~= ts);
    let ghost ps = span_pairs(ts);
    let ghost gn = group_names(ts, ps);
    let mut summaries: Vec<SpanSummaryResponse> = Vec::new();
    let mut names = names;
    let mut durations = durations;
    let mut e: usize = 0;
    let ghost total = names.len();
    while names.len() > 0
        invariant
            ps.len() == total_spans(ts),
            total_spans(ts) <= usize::MAX / 100,
            names.len() == durations.len(),
            names.len() + e == total,
            total == gn.len(),
            names.deep_view() =~= gn.skip(e as int),
            forall|x: int| 0 <= x < durations.len() ==> (#[trigger] durations@[x])@ == named_durations(ts, ps, names.deep_view()[x]),
            summaries.deep_view() =~= Seq::new(e as nat, |k: int| SummaryResponseView { name: gn[k], stats: stats_of(named_durations(ts, ps, gn[k])) }),
        decreases names.len(),
    {
        let ghost nv = names.deep_view();
        let ghost old_names = names;
        let ghost old_d = durations@;
        let name = names.remove(0);
        let ds = durations.remove(0);
        assert(name@ == nv[0]);
        assert(names.deep_view() =~= nv.drop_first()) by {
            assert forall|k: int| 0 <= k < names.deep_view().len() implies names.deep_view()[k] == nv.drop_first()[k] by {
                assert(names@[k] == old_names@[k + 1]);
            }
        }
        assert forall|x: int| 0 <= x < durations.len() implies (#[trigger] durations@[x])@ == named_durations(ts, ps, names.deep_view()[x]) by {
            assert(durations@[x] == old_d[x + 1]);
            assert(names.deep_view()[x] == nv[x + 1]);
        }
        assert(ds@ == named_durations(ts, ps, gn[e as int]));
        proof {
            lemma_group_names(ts, ps, gn[e as int]);
        }
        let stats = span_stats(ds);
        let ghost before = summaries.deep_view();
        let row = SpanSummaryResponse { name, stats };
        summaries.push(row);
        assert(summaries.deep_view() =~= before.push(row@));
        e = e + 1;
    }
    let spans = sort_summaries(summaries);
    SpanListResponse { spans }
}

proof fn lemma_named_pairs(ts: Seq<TraceView>, ps: Seq<(usize, usize)>, name: Seq<char>)
    ensures
        named_pairs(ts, ps, name).len() <= ps.len(),
        forall|k: int| 0 <= k < named_pairs(ts, ps, name).len() ==> ps.contains(#[trigger] named_pairs(ts, ps, name)[k]),
    decreases ps.len(),
{
    if ps.len() > 0 {
        let d = ps.drop_last();
        lemma_named_pairs(ts, d, name);
        let r = named_pairs(ts, d, name);
        let q = named_pairs(ts, ps, name);
        assert forall|k: int| 0 <= k < q.len() implies ps.contains(#[trigger] q[k]) by {
            if k < r.len() {
                assert(q[k] == r[k]);
                let x = choose|x: int| 0 <= x < d.len() && d[x] == r[k];
                assert(ps[x] == d[x]);
            } else {
                assert(q[k] == ps.last());
                assert(ps[ps.len() - 1] == ps.last());
            }
        }
    }
}

pub struct SpanReportResponse {
    pub span_name: String,
    pub stats: SpanStatsResponse,
    pub slowest: Vec<SpanResponse>,
}

/// The mathematical form of a `SpanReportResponse`.
pub struct ReportView {
    pub span_name: Seq<char>,
    pub stats: StatsView,
    pub slowest: Seq<ResponseView>,
}

impl View for SpanReportResponse {
    type V = ReportView;

    open spec fn view(&self) -> ReportView {
        ReportView { span_name: self.span_name@, stats: self.stats@, slowest: self.slowest.deep_view() }
    }
}

/// The durations of the spans at `ps`, in order.
pub open spec fn durations_at(ts: Seq<TraceView>, ps: Seq<(usize, usize)>) -> Seq<u64> {
    Seq::new(ps.len(), |k: int| duration_of(span_at(ts, ps[k])))
}

/// How the API shows the span at `p`, with the children it has in its trace.
pub open spec fn response_at(ts: Seq<TraceView>, p: (usize, usize)) -> ResponseView {
    response_of(span_at(ts, p), children_ids(ts[p.0 as int].spans, span_at(ts, p).span_id))
}

/// The report on the spans named `span_name`: the statistics of their
/// durations, and the slowest of them (at most `limit`, longest first,
/// stably) with their children.
pub open spec fn span_report_of(ts: Seq<TraceView>, span_name: Seq<char>, limit: nat) -> ReportView {
    let ps = named_pairs(ts, span_pairs(ts), span_name);
    let keys = durations_at(ts, ps);
    let order = sort_by(positions(ps.len()), key_order(keys, true));
    let shown = if limit < order.len() {
        order.take(limit as int)
    } else {
        order
    };
    ReportView {
        span_name,
        stats: stats_of(keys),
        slowest: Seq::new(shown.len(), |k: int| response_at(ts, ps[shown[k] as int])),
    }
}

/// The report on the spans named `span_name` (see `span_report_of`).
pub fn span_report_response(store: &Store, span_name: String, limit: usize) -> (report: SpanReportResponse)
    requires
        store.wf(),
        total_spans(store@) <= usize::MAX / 100,
    ensures
        report@ == span_report_of(store@, span_name@, limit as nat),
{
    let ghost ts = store@;
    let traces = store.traces();
    assert(ts.len() == traces.len());
    proof {
        lemma_span_pairs_len(ts);
        lemma_span_pairs_valid(ts, ts);
    }
    let mut pairs: Vec<(usize, usize)> = Vec::new();
    let mut keys: Vec<u64> = Vec::new();
    let mut i: usize = 0;
    assert(ts.take(0) =~= Seq::<TraceView>::empty());
    while i < traces.len()
        invariant
            traces.deep_view() == ts,
            i <= traces.len(),
            pairs@ == named_pairs(ts, span_pairs(ts.take(i as int)), span_name@),
            keys@ =~= durations_at(ts, pairs@),
        decreases traces.len() - i,
    {
        let spans = traces[i].spans();
        let ghost base = span_pairs(ts.take(i as int));
        let mut j: usize = 0;
        assert(base + trace_pairs(i, 0) =~= base);
        while j < spans.len()
            invariant
                traces.deep_view() == ts,
                i < traces.len(),
                spans.deep_view() == ts[i as int].spans,
                j <= spans.len(),
                pairs@ == named_pairs(ts, base + trace_pairs(i, j as nat), span_name@),
                keys@ =~= durations_at(ts, pairs@),
            decreases spans.len() - j,
        {
            let ghost pre = base + trace_pairs(i, j as nat);
            let ghost post = base + trace_pairs(i, (j + 1) as nat);
            assert(post.drop_last() =~= pre);
            assert(post.last() == (i, j));
            assert(span_at(ts, (i, j)) == spans.deep_view()[j as int]);
            if spans[j].name == span_name {
                pairs.push((i, j));
                keys.push(span_duration_nano(&spans[j]));
            }
            j = j + 1;
        }
        proof {
            lemma_span_pairs_take(ts, i as int);
            assert(trace_pairs(i, spans.len() as nat) == trace_pairs(i, ts[i as int].spans.len()));
        }
        i = i + 1;
    }
    assert(ts.take(traces.len() as int) =~= ts);
    let ghost ps = pairs@;
    proof {
        lemma_named_pairs(ts, span_pairs(ts), span_name@);
    }
    let all = all_positions(pairs.len());
    let order = sort_positions(&keys, &all, true);
    let n: usize = if limit < order.len() {
        limit
    } else {
        order.len()
    };
    let ghost shown = if (limit as nat) < order@.len() {
        order@.take(limit as int)
    } else {
        order@
    };
    assert(shown =~= order@.take(n as int));
    let mut slowest: Vec<SpanResponse> = Vec::new();
    let mut k: usize = 0;
    while k < n
        invariant
            traces.deep_view() == ts,
            store_wf(ts),
            ps == pairs@,
            forall|x: int| 0 <= x < ps.len() ==> span_pairs(ts).contains(#[trigger] ps[x]),
            forall|x: int| 0 <= x < span_pairs(ts).len() ==> (#[trigger] span_pairs(ts)[x]).0 < ts.len()
                && span_pairs(ts)[x].1 < ts[span_pairs(ts)[x].0 as int].spans.len(),
            all_below(order@, keys.len() as nat),
            keys.len() == pairs.len(),
            n <= order.len(),
            shown =~= order@.take(n as int),
            k <= n,
            slowest.deep_view() =~= Seq::new(k as nat, |x: int| response_at(ts, ps[shown[x] as int])),
        decreases n - k,
    {
        let q = order[k];
        let (ti, si) = pairs[q];
        assert(ti < ts.len() && si < ts[ti as int].spans.len()) by {
            assert(span_pairs(ts).contains(ps[q as int]));
            let x = choose|x: int| 0 <= x < span_pairs(ts).len() && span_pairs(ts)[x] == ps[q as int];
            assert(span_pairs(ts)[x].0 < ts.len());
        }
        assert(ts[ti as int].wf());
        let trace = &traces[ti];
        let m = children_by_parent(trace);
        let span = &trace.spans()[si];
        let kids = children_from(&m, &span.span_id, Ghost(ts[ti as int].spans));
        let resp = span_response(span, kids);
        let ghost before = slowest.deep_view();
        slowest.push(resp);
        assert(slowest.deep_view() =~= before.push(resp@));
        k = k + 1;
    }
    let stats = span_stats(keys);
    SpanReportResponse { span_name, stats, slowest }
}

/// An error answer of the API: an HTTP status code and a message.
pub struct ApiError {
    pub status: u16,
    pub error: String,
}

/// The error answer with `status` and the message `error`.
pub fn api_error(status: u16, error: &str) -> (e: ApiError)
    ensures
        e.status == status,
        e.error@ == error@,
{
    ApiError { status, error: error.to_owned() }
}

/// The answer to a span query: the list of all span names, or the report
/// on one name.
pub enum SpansResponse {
    List(SpanListResponse),
    Report(SpanReportResponse),
}

/// The number of slowest spans a report lists for the requested `limit`:
/// 25 when none is given, never more than 500.
pub open spec fn report_limit(limit: Option<usize>) -> nat {
    let l = match limit {
        Some(l) => l as nat,
        None => DEFAULT_SLOWEST_LIMIT as nat,
    };
    if l < MAX_SLOWEST_LIMIT {
        l
    } else {
        MAX_SLOWEST_LIMIT as nat
    }
}

/// A span report on a name lists as many of the slowest spans as were asked
/// for (25 when the query names no limit), but never more than 500, and
/// all the spans of that name (`stats.calls` of them) when there are fewer.
pub proof fn lemma_report_length(ts: Seq<TraceView>, span_name: Seq<char>, limit: Option<usize>)
    ensures
        ({
            let rep = span_report_of(ts, span_name, report_limit(limit));
            let asked: nat = match limit {
                Some(l) => l as nat,
                None => 25,
            };
            &&& rep.slowest.len() <= asked
            &&& rep.slowest.len() <= 500
            &&& rep.slowest.len() <= rep.stats.calls
            &&& (rep.slowest.len() == asked || rep.slowest.len() == 500 || rep.slowest.len() == rep.stats.calls)
        }),
{
    let ps = named_pairs(ts, span_pairs(ts), span_name);
    let keys = durations_at(ts, ps);
    let le = key_order(keys, true);
    lemma_sort_by_multiset(positions(ps.len()), le);
}

/// Answers a span query: without a name, the span list; with an empty
/// name, a 400 error "name cannot be empty"; else the report on that name
/// (see `report_limit`).
pub fn span_report(store: &Store, name: Option<String>, limit: Option<usize>) -> (r: Result<SpansResponse, ApiError>)
    requires
        store.wf(),
        (name matches Some(n) && n@.len() == 0) || total_spans(store@) <= usize::MAX / 100,
    ensures
        match name {
            None => r matches Ok(SpansResponse::List(l)) && l.spans.deep_view() == span_list_of(store@),
            Some(n) => if n@.len() == 0 {
                r matches Err(e) && e.status == 400 && e.error@ == "name cannot be empty"@
            } else {
                r matches Ok(SpansResponse::Report(rep)) && rep@ == span_report_of(store@, n@, report_limit(limit))
            },
        },
{
    let span_name = match name {
        Some(n) => n,
        None => {
            let response = span_list_response(store);
            return Ok(SpansResponse::List(response));
        },
    };
    if span_name.as_str().is_empty() {
        return Err(api_error(400, "name cannot be empty"));
    }
    let requested: usize = match limit {
        Some(l) => l,
        None => DEFAULT_SLOWEST_LIMIT,
    };
    let limit: usize = if requested < MAX_SLOWEST_LIMIT {
        requested
    } else {
        MAX_SLOWEST_LIMIT
    };
    let response = span_report_response(store, span_name, limit);
    Ok(SpansResponse::Report(response))
}

/// Answers a trace query: the trace with id `trace_id` (see
/// `trace_response_of`), or a 404 error "trace not found".
pub fn trace_detail(store: &Store, trace_id: &String) -> (r: Result<TraceResponse, ApiError>)
    requires
        store.wf(),
    ensures
        match r {
            Ok(t) => has_trace(store@, trace_id@) && t@ == trace_response_of(store@[trace_index(store@, trace_id@)]),
            Err(e) => !has_trace(store@, trace_id@) && e.status == 404 && e.error@ == "trace not found"@,
        },
{
    match store.trace(trace_id) {
        Some(trace) => Ok(trace_response(trace)),
        None => Err(api_error(404, "trace not found")),
    }
}

proof fn lemma_sum_at_most(s: Seq<u64>, m: u64)
    requires
        forall|i: int| 0 <= i < s.len() ==> #[trigger] s[i] <= m,
    ensures
        seq_sum(s) <= s.len() * m,
    decreases s.len(),
{
    if s.len() > 0 {
        let d = s.drop_last();
        assert forall|i: int| 0 <= i < d.len() implies #[trigger] d[i] <= m by {
            assert(d[i] == s[i]);
        }
        lemma_sum_at_most(d, m);
        assert(s.last() == s[s.len() - 1]);
        assert(seq_sum(s) <= s.len() * m) by (nonlinear_arith)
            requires
                seq_sum(d) <= d.len() * m,
                seq_sum(s) == seq_sum(d) + s.last(),
                s.last() <= m,
                d.len() + 1 == s.len(),
        ;
    }
}

proof fn lemma_sum_prepend(a: u64, s: Seq<u64>)
    ensures
        seq_sum(seq![a] + s) == a + seq_sum(s),
    decreases s.len(),
{
    if s.len() == 0 {
        assert(seq![a] + s =~= seq![a]);
        assert(seq![a].drop_last() =~= Seq::<u64>::empty());
        assert(seq_sum(Seq::<u64>::empty()) == 0);
        assert(seq_sum(seq![a]) == seq_sum(seq![a].drop_last()) + seq![a].last());
    } else {
        lemma_sum_prepend(a, s.drop_last());
        assert((seq![a] + s).drop_last() =~= seq![a] + s.drop_last());
        assert((seq![a] + s).last() == s.last());
    }
}

proof fn lemma_sum_insert(s: Seq<u64>, x: u64, le: spec_fn(u64, u64) -> bool)
    ensures
        seq_sum(crate::sorting::insert_by(s, x, le)) == seq_sum(s) + x,
    decreases s.len(),
{
    if s.len() == 0 {
        assert(seq![x].drop_last() =~= Seq::<u64>::empty());
        assert(seq_sum(Seq::<u64>::empty()) == 0);
        assert(seq_sum(seq![x]) == seq_sum(seq![x].drop_last()) + seq![x].last());
        assert(crate::sorting::insert_by(s, x, le) == seq![x]);
    } else {
        let t = s.drop_first();
        assert(s =~= seq![s[0]] + t);
        lemma_sum_prepend(s[0], t);
        if le(s[0], x) {
            lemma_sum_insert(t, x, le);
            lemma_sum_prepend(s[0], crate::sorting::insert_by(t, x, le));
        } else {
            lemma_sum_prepend(x, s);
        }
    }
}

proof fn lemma_sum_sort(s: Seq<u64>, le: spec_fn(u64, u64) -> bool)
    ensures
        seq_sum(sort_by(s, le)) == seq_sum(s),
    decreases s.len(),
{
    if s.len() > 0 {
        lemma_sum_sort(s.drop_last(), le);
        lemma_sum_insert(sort_by(s.drop_last(), le), s.last(), le);
    }
}

/// For a non-empty list of durations: the mean is their sum divided by
/// their number, rounded down (`mean * calls <= sum < (mean + 1) * calls`);
/// the total is the sum, capped at the largest `u64`; and the largest is
/// at least every duration and is one of them.
pub proof fn lemma_stats_sum_mean_max(durations: Seq<u64>)
    requires
        durations.len() > 0,
    ensures
        ({
            let st = stats_of(durations);
            let n = durations.len();
            let sum = seq_sum(durations);
            &&& st.calls == n
            &&& st.mean_nano * n <= sum < (st.mean_nano + 1) * n
            &&& st.total_duration_nano as int == if sum < u64::MAX { sum as int } else { u64::MAX as int }
            &&& forall|i: int| 0 <= i < n ==> #[trigger] durations[i] <= st.max_nano
            &&& exists|i: int| 0 <= i < n && #[trigger] durations[i] == st.max_nano
        }),
{
    broadcast use vstd::seq_lib::group_to_multiset_ensures;

    let le = value_le();
    let sorted = sort_by(durations, le);
    let n = durations.len();
    let sum = seq_sum(durations);
    lemma_sum_sort(durations, le);
    lemma_sum_bound(durations);
    lemma_sort_by_multiset(durations, le);
    lemma_sort_by_sorted(durations, le);
    lemma_sort_by_members(durations, le);
    let q = sum as int / n as int;
    assert(q * n <= sum < (q + 1) * n && q <= u64::MAX) by (nonlinear_arith)
        requires
            n > 0,
            q == sum as int / n as int,
            sum <= n * u64::MAX,
    ;
    let st = stats_of(durations);
    assert(st.mean_nano == q);
    let last = sorted[n - 1];
    assert(sorted.last() == last);
    assert forall|i: int| 0 <= i < n implies #[trigger] durations[i] <= st.max_nano by {
        assert(durations.contains(durations[i]));
        assert(durations.to_multiset().count(durations[i]) > 0);
        assert(sorted.contains(durations[i]));
        let k = choose|k: int| 0 <= k < sorted.len() && sorted[k] == durations[i];
        if k < n - 1 {
            assert(le(sorted[k], sorted[n - 1]));
        }
    }
    assert(durations.contains(last));
}

/// Span statistics are ordered: the 50th percentile is at most the 95th,
/// which is at most the 99th, which is at most the largest; the mean is at
/// most the largest; the count is the number of durations.
pub proof fn lemma_stats_ordered(durations: Seq<u64>)
    ensures
        stats_of(durations).calls == durations.len(),
        stats_of(durations).p50_nano <= stats_of(durations).p95_nano,
        stats_of(durations).p95_nano <= stats_of(durations).p99_nano,
        stats_of(durations).p99_nano <= stats_of(durations).max_nano,
        stats_of(durations).mean_nano <= stats_of(durations).max_nano,
{
    let le = value_le();
    let sorted = sort_by(durations, le);
    assert(total_preorder(le));
    lemma_sort_by_sorted(durations, le);
    lemma_sort_by_multiset(durations, le);
    let n = sorted.len();
    if n > 0 {
        let i50 = nearest_rank_index(n, 50);
        let i95 = nearest_rank_index(n, 95);
        let i99 = nearest_rank_index(n, 99);
        assert(0 <= i50 <= i95 <= i99 <= n - 1) by (nonlinear_arith)
            requires
                n > 0,
                i50 == nearest_rank_index(n, 50),
                i95 == nearest_rank_index(n, 95),
                i99 == nearest_rank_index(n, 99),
        {
            assert((n * 50 + 99) / 100 <= (n * 95 + 99) / 100);
            assert((n * 95 + 99) / 100 <= (n * 99 + 99) / 100);
            assert((n * 50 + 99) / 100 >= 1);
        }
        let last = sorted[n - 1];
        assert(sorted.last() == last);
        if i50 < i95 {
            assert(le(sorted[i50], sorted[i95]));
        }
        if i95 < i99 {
            assert(le(sorted[i95], sorted[i99]));
        }
        if i99 < n - 1 {
            assert(le(sorted[i99], sorted[n - 1]));
        }
        assert forall|i: int| 0 <= i < n implies #[trigger] sorted[i] <= last by {
            if i < n - 1 {
                assert(le(sorted[i], sorted[n - 1]));
            }
        }
        lemma_sum_at_most(sorted, last);
        let total = seq_sum(sorted);
        assert(total as int / n as int <= last) by (nonlinear_arith)
            requires
                total <= n * last,
                n > 0,
        ;
    }
}

/// The span-list order is a total preorder.
pub proof fn lemma_summary_le_total()
    ensures
        total_preorder(summary_le()),
{
    let le = summary_le();
    assert forall|a: SummaryResponseView, b: SummaryResponseView| #[trigger] le(a, b) || le(b, a) by {
        lemma_lex_total(a.name, b.name);
    }
    assert forall|a: SummaryResponseView, b: SummaryResponseView, c: SummaryResponseView| #[trigger] le(a, b) && #[trigger] le(b, c) implies le(a, c) by {
        if a.stats.calls == b.stats.calls && b.stats.calls == c.stats.calls {
            lemma_lex_trans(a.name, b.name, c.name);
        }
    }
}

/// The span list names every span name once, and lists them by number of
/// calls, most first, names with equal counts in text order.
pub proof fn lemma_span_list_order(ts: Seq<TraceView>)
    ensures
        forall|a: int, b: int| 0 <= a < span_list_of(ts).len() && 0 <= b < span_list_of(ts).len() && a != b ==> #[trigger] span_list_of(ts)[a].name != #[trigger] span_list_of(ts)[b].name,
        forall|a: int, b: int| 0 <= a < b < span_list_of(ts).len() ==> {
            ||| #[trigger] span_list_of(ts)[a].stats.calls > #[trigger] span_list_of(ts)[b].stats.calls
            ||| (span_list_of(ts)[a].stats.calls == span_list_of(ts)[b].stats.calls && lex_le(span_list_of(ts)[a].name, span_list_of(ts)[b].name))
        },
{
    let ps = span_pairs(ts);
    let names = group_names(ts, ps);
    let rows = Seq::new(names.len(), |k: int| SummaryResponseView { name: names[k], stats: stats_of(named_durations(ts, ps, names[k])) });
    let le = summary_le();
    let out = sort_by(rows, le);
    assert(out == span_list_of(ts));
    lemma_summary_le_total();
    lemma_sort_by_sorted(rows, le);
    lemma_sort_by_members(rows, le);
    lemma_group_names(ts, ps, Seq::empty());
    assert(rows.no_duplicates()) by {
        assert forall|a: int, b: int| 0 <= a < rows.len() && 0 <= b < rows.len() && a != b implies rows[a] != rows[b] by {
            assert(names[a] != names[b]);
        }
    }
    assert forall|a: int, b: int| 0 <= a < out.len() && 0 <= b < out.len() && a != b implies #[trigger] out[a].name != #[trigger] out[b].name by {
        assert(out[a] != out[b]);
        assert(rows.contains(out[a]));
        assert(rows.contains(out[b]));
        let x = choose|x: int| 0 <= x < rows.len() && rows[x] == out[a];
        let y = choose|y: int| 0 <= y < rows.len() && rows[y] == out[b];
        if out[a].name == out[b].name {
            assert(names[x] == names[y]);
            assert(x == y);
        }
    }
    assert forall|a: int, b: int| 0 <= a < b < out.len() implies {
        ||| #[trigger] out[a].stats.calls > #[trigger] out[b].stats.calls
        ||| (out[a].stats.calls == out[b].stats.calls && lex_le(out[a].name, out[b].name))
    } by {
        assert(le(out[a], out[b]));
    }
}

/// A span report lists at most `limit` spans, each named `span_name`,
/// longest first.
pub proof fn lemma_span_report_order(ts: Seq<TraceView>, span_name: Seq<char>, limit: nat)
    ensures
        span_report_of(ts, span_name, limit).slowest.len() <= limit,
        forall|k: int| 0 <= k < span_report_of(ts, span_name, limit).slowest.len() ==> (#[trigger] span_report_of(ts, span_name, limit).slowest[k]).name == span_name,
        forall|a: int, b: int| 0 <= a < b < span_report_of(ts, span_name, limit).slowest.len() ==> (#[trigger] span_report_of(ts, span_name, limit).slowest[a]).duration_nano
            >= (#[trigger] span_report_of(ts, span_name, limit).slowest[b]).duration_nano,
{
    let ps = named_pairs(ts, span_pairs(ts), span_name);
    let keys = durations_at(ts, ps);
    let le = key_order(keys, true);
    let all = positions(ps.len());
    let order = sort_by(all, le);
    let r = span_report_of(ts, span_name, limit);
    lemma_key_order_total(keys, true);
    lemma_sort_by_sorted(all, le);
    lemma_sort_by_members(all, le);
    lemma_named_pairs_named(ts, span_pairs(ts), span_name);
    assert forall|k: int| 0 <= k < r.slowest.len() implies (#[trigger] r.slowest[k]).name == span_name by {
        assert(all.contains(order[k]));
        let x = choose|x: int| 0 <= x < all.len() && all[x] == order[k];
        assert(order[k] < ps.len());
    }
    assert forall|a: int, b: int| 0 <= a < b < r.slowest.len() implies (#[trigger] r.slowest[a]).duration_nano >= (#[trigger] r.slowest[b]).duration_nano by {
        assert(le(order[a], order[b]));
        assert(all.contains(order[a]) && all.contains(order[b]));
        let x = choose|x: int| 0 <= x < all.len() && all[x] == order[a];
        let y = choose|y: int| 0 <= y < all.len() && all[y] == order[b];
        assert(keys[order[a] as int] == duration_of(span_at(ts, ps[order[a] as int])));
        assert(keys[order[b] as int] == duration_of(span_at(ts, ps[order[b] as int])));
    }
}

proof fn lemma_named_pairs_named(ts: Seq<TraceView>, ps: Seq<(usize, usize)>, name: Seq<char>)
    ensures
        forall|k: int| 0 <= k < named_pairs(ts, ps, name).len() ==> (#[trigger] span_at(ts, named_pairs(ts, ps, name)[k])).name == name,
    decreases ps.len(),
{
    if ps.len() > 0 {
        lemma_named_pairs_named(ts, ps.drop_last(), name);
        let r = named_pairs(ts, ps.drop_last(), name);
        let q = named_pairs(ts, ps, name);
        assert forall|k: int| 0 <= k < q.len() implies (#[trigger] span_at(ts, q[k])).name == name by {
            if k < r.len() {
                assert(q[k] == r[k]);
            }
        }
    }
}

} // verus!
