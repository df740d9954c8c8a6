//! Spans as the store keeps them, and the trace that groups the spans of
//! one trace id.

use vstd::prelude::*;
use crate::text::{hex_encode, hex_text};

verus! {

/// Hexadecimal text of a 16 byte trace id.
pub type TraceId = String;

/// Hexadecimal text of an 8 byte span id.
pub type SpanId = String;

/// An attribute of a received span: its key and, where the sender gave
/// one, the text of its value.
pub struct RawAttribute {
    pub key: String,
    pub value: Option<String>,
}

impl View for RawAttribute {
    type V = (Seq<char>, Option<Seq<char>>);

    open spec fn view(&self) -> Self::V {
        (self.key@, self.value.deep_view())
    }
}

impl DeepView for RawAttribute {
    type V = (Seq<char>, Option<Seq<char>>);

    open spec fn deep_view(&self) -> Self::V {
        self@
    }
}

/// A span as it arrives over OTLP, in plain values: ids as raw bytes, an
/// empty parent id for a span without a parent.
pub struct RawSpan {
    pub trace_id: Vec<u8>,
    pub span_id: Vec<u8>,
    pub parent_span_id: Vec<u8>,
    pub name: String,
    pub start_time_unix_nano: u64,
    pub end_time_unix_nano: u64,
    pub attributes: Vec<RawAttribute>,
}

/// The mathematical form of a `NormalizedSpan`.
pub struct SpanView {
    pub trace_id: Seq<char>,
    pub span_id: Seq<char>,
    pub parent_span_id: Option<Seq<char>>,
    pub name: Seq<char>,
    pub start_unix_nano: u64,
    pub end_unix_nano: u64,
    pub attributes: Seq<(Seq<char>, Seq<char>)>,
}

/// Represents the useful components of a span that we care about
/// for our downstream consumers.
pub struct NormalizedSpan {
    pub trace_id: TraceId,
    pub span_id: SpanId,
    pub parent_span_id: Option<SpanId>,
    pub name: String,
    /// Absolute wall-clock start timestamp from OTLP, in Unix epoch nanoseconds.
    pub start_unix_nano: u64,
    /// Absolute wall-clock end timestamp from OTLP, in Unix epoch nanoseconds.
    pub end_unix_nano: u64,
    /// Attributes by key; no key occurs twice.
    pub attributes: Vec<(String, String)>,
}

impl View for NormalizedSpan {
    type V = SpanView;

    open spec fn view(&self) -> SpanView {
        SpanView {
            trace_id: self.trace_id@,
            span_id: self.span_id@,
            parent_span_id: self.parent_span_id.deep_view(),
            name: self.name@,
            start_unix_nano: self.start_unix_nano,
            end_unix_nano: self.end_unix_nano,
            attributes: self.attributes.deep_view(),
        }
    }
}

impl DeepView for NormalizedSpan {
    type V = SpanView;

    open spec fn deep_view(&self) -> SpanView {
        self@
    }
}

/// Some entry of `m` has key `k`.
pub open spec fn has_key(m: Seq<(Seq<char>, Seq<char>)>, k: Seq<char>) -> bool {
    exists|i: int| 0 <= i < m.len() && #[trigger] m[i].0 == k
}

/// No key occurs twice in `m`.
pub open spec fn distinct_keys(m: Seq<(Seq<char>, Seq<char>)>) -> bool {
    forall|i: int, j: int| 0 <= i < m.len() && 0 <= j < m.len() && i != j ==> #[trigger] m[i].0 != #[trigger] m[j].0
}

/// Sets key `k` to `v`: in place where `k` is already a key, else at the end.
pub open spec fn set_key(m: Seq<(Seq<char>, Seq<char>)>, k: Seq<char>, v: Seq<char>) -> Seq<(Seq<char>, Seq<char>)> {
    if has_key(m, k) {
        m.update(choose|i: int| 0 <= i < m.len() && #[trigger] m[i].0 == k, (k, v))
    } else {
        m.push((k, v))
    }
}

/// The attributes that have a value, collected by key: a later value of a
/// key replaces an earlier one.
pub open spec fn collect_attributes(raw: Seq<(Seq<char>, Option<Seq<char>>)>) -> Seq<(Seq<char>, Seq<char>)>
    decreases raw.len(),
{
    if raw.len() == 0 {
        Seq::empty()
    } else {
        let m = collect_attributes(raw.drop_last());
        match raw.last().1 {
            Some(v) => set_key(m, raw.last().0, v),
            None => m,
        }
    }
}

/// What normalizing a received span gives.
pub open spec fn normalized(raw: RawSpan) -> SpanView {
    SpanView {
        trace_id: hex_text(raw.trace_id@),
        span_id: hex_text(raw.span_id@),
        parent_span_id: if raw.parent_span_id@.len() == 0 {
            None
        } else {
            Some(hex_text(raw.parent_span_id@))
        },
        name: raw.name@,
        start_unix_nano: raw.start_time_unix_nano,
        end_unix_nano: raw.end_time_unix_nano,
        attributes: collect_attributes(raw.attributes.deep_view()),
    }
}

/// A copy of a list of string pairs.
pub fn clone_pairs(v: &Vec<(String, String)>) -> (r: Vec<(String, String)>)
    ensures
        r.deep_view() == v.deep_view(),
{
    let mut r: Vec<(String, String)> = Vec::new();
    let mut i: usize = 0;
    while i < v.len()
        invariant
            i <= v.len(),
            r.len() == i,
            r.deep_view() =~= v.deep_view().take(i as int),
        decreases v.len() - i,
    {
        let k = v[i].0.clone();
        let x = v[i].1.clone();
        assert(k@ == v@[i as int].0@ && x@ == v@[i as int].1@);
        r.push((k, x));
        assert(r@[i as int].0@ == k@ && r@[i as int].1@ == x@);
        assert(r.deep_view()[i as int] == v.deep_view()[i as int]);
        i = i + 1;
    }
    assert(v.deep_view().take(v.len() as int) =~= v.deep_view());
    r
}

fn key_position(m: &Vec<(String, String)>, k: &String) -> (r: Option<usize>)
    ensures
        match r {
            Some(i) => i < m.len() && m.deep_view()[i as int].0 == k@,
            None => !has_key(m.deep_view(), k@),
        },
{
    let mut i: usize = 0;
    while i < m.len()
        invariant
            i <= m.len(),
            forall|j: int| 0 <= j < i ==> m.deep_view()[j].0 != k@,
        decreases m.len() - i,
    {
        if m[i].0 == *k {
            return Some(i);
        }
        i = i + 1;
    }
    None
}

/// Keeps the attributes that have a value, keyed by name; a later value of
/// a key replaces an earlier one.
pub fn collect_raw_attributes(raw: &Vec<RawAttribute>) -> (m: Vec<(String, String)>)
    ensures
        m.deep_view() == collect_attributes(raw.deep_view()),
        distinct_keys(m.deep_view()),
{
    let mut m: Vec<(String, String)> = Vec::new();
    let mut i: usize = 0;
    while i < raw.len()
        invariant
            i <= raw.len(),
            m.deep_view() == collect_attributes(raw.deep_view().take(i as int)),
            distinct_keys(m.deep_view()),
        decreases raw.len() - i,
    {
        let ghost before = m.deep_view();
        assert(raw.deep_view().take(i + 1).drop_last() =~= raw.deep_view().take(i as int));
        match &raw[i].value {
            Some(v) => {
                let k = raw[i].key.clone();
                match key_position(&m, &k) {
                    Some(p) => {
                        proof {
                            let c = choose|j: int| 0 <= j < before.len() && #[trigger] before[j].0 == k@;
                            assert(c == p as int);
                        }
                        m.set(p, (k, v.clone()));
                        assert(m.deep_view() =~= set_key(before, k@, v@));
                    },
                    None => {
                        m.push((k, v.clone()));
                        assert(m.deep_view() =~= set_key(before, k@, v@));
                    },
                }
            },
            None => {},
        }
        i = i + 1;
    }
    assert(raw.deep_view().take(raw.len() as int) =~= raw.deep_view());
    m
}

impl NormalizedSpan {
    /// Normalizes a received span: ids become lowercase hexadecimal text, an
    /// empty parent id becomes no parent, and the attributes with a value
    /// are kept by key.
    pub fn from_raw(raw: RawSpan) -> (s: NormalizedSpan)
        ensures
            s@ == normalized(raw),
            distinct_keys(s@.attributes),
    {
        let attributes = collect_raw_attributes(&raw.attributes);
        let parent_span_id = if raw.parent_span_id.len() == 0 {
            None
        } else {
            Some(hex_encode(raw.parent_span_id.as_slice()))
        };
        NormalizedSpan {
            trace_id: hex_encode(raw.trace_id.as_slice()),
            span_id: hex_encode(raw.span_id.as_slice()),
            parent_span_id,
            name: raw.name,
            start_unix_nano: raw.start_time_unix_nano,
            end_unix_nano: raw.end_time_unix_nano,
            attributes,
        }
    }
}


/// Some span in `spans` has id `id`.
pub open spec fn has_span(spans: Seq<SpanView>, id: Seq<char>) -> bool {
    exists|i: int| 0 <= i < spans.len() && #[trigger] spans[i].span_id == id
}

/// The position of a span with id `id` (the only one where ids are distinct).
pub open spec fn span_index(spans: Seq<SpanView>, id: Seq<char>) -> int {
    choose|i: int| 0 <= i < spans.len() && #[trigger] spans[i].span_id == id
}

/// No span id occurs twice.
pub open spec fn distinct_span_ids(spans: Seq<SpanView>) -> bool {
    forall|i: int, j: int|
        0 <= i < spans.len() && 0 <= j < spans.len() && i != j ==> #[trigger] spans[i].span_id
            != #[trigger] spans[j].span_id
}

/// Puts `s` in place of the span with its id, or at the end where there is none.
pub open spec fn upsert_span(spans: Seq<SpanView>, s: SpanView) -> Seq<SpanView> {
    if has_span(spans, s.span_id) {
        spans.update(span_index(spans, s.span_id), s)
    } else {
        spans.push(s)
    }
}

/// The earliest start among `spans`, 0 where there is none.
pub open spec fn min_start(spans: Seq<SpanView>) -> u64
    decreases spans.len(),
{
    if spans.len() == 0 {
        0
    } else if spans.len() == 1 {
        spans[0].start_unix_nano
    } else {
        let m = min_start(spans.drop_last());
        if spans.last().start_unix_nano < m {
            spans.last().start_unix_nano
        } else {
            m
        }
    }
}

/// The latest end among `spans`, 0 where there is none.
pub open spec fn max_end(spans: Seq<SpanView>) -> u64
    decreases spans.len(),
{
    if spans.len() == 0 {
        0
    } else {
        let m = max_end(spans.drop_last());
        if spans.last().end_unix_nano > m {
            spans.last().end_unix_nano
        } else {
            m
        }
    }
}

/// `a - b`, or 0 where `b` is the larger.
pub open spec fn saturating_diff(a: u64, b: u64) -> u64 {
    if a >= b {
        (a - b) as u64
    } else {
        0
    }
}

/// The mathematical form of a `Trace`.
pub struct TraceView {
    pub trace_id: Seq<char>,
    pub root: Option<Seq<char>>,
    pub spans: Seq<SpanView>,
    pub latest_span_time: u64,
}

impl TraceView {
    /// The trace that a first span opens.
    pub open spec fn opened_by(s: SpanView) -> TraceView {
        TraceView {
            trace_id: s.trace_id,
            root: if s.parent_span_id is None {
                Some(s.span_id)
            } else {
                None
            },
            spans: seq![s],
            latest_span_time: s.start_unix_nano,
        }
    }

    /// The trace after taking in `s`, a span of the same trace id.
    pub open spec fn with_span(self, s: SpanView) -> TraceView {
        TraceView {
            trace_id: self.trace_id,
            root: if self.root is None && s.parent_span_id is None {
                Some(s.span_id)
            } else {
                self.root
            },
            spans: upsert_span(self.spans, s),
            latest_span_time: if s.start_unix_nano > self.latest_span_time {
                s.start_unix_nano
            } else {
                self.latest_span_time
            },
        }
    }

    /// What every trace satisfies: at least one span, span ids distinct, all
    /// of this trace id, the root among the spans (no span without a parent
    /// when there is no root), and no start later than the latest span time.
    pub open spec fn wf(self) -> bool {
        &&& self.spans.len() > 0
        &&& distinct_span_ids(self.spans)
        &&& forall|i: int| 0 <= i < self.spans.len() ==> #[trigger] self.spans[i].trace_id == self.trace_id
        &&& match self.root {
            Some(r) => has_span(self.spans, r),
            None => forall|i: int| 0 <= i < self.spans.len() ==> #[trigger] self.spans[i].parent_span_id is Some,
        }
        &&& forall|i: int| 0 <= i < self.spans.len() ==> #[trigger] self.spans[i].start_unix_nano <= self.latest_span_time
    }

    /// The name of the root span, if there is one.
    pub open spec fn root_name(self) -> Option<Seq<char>> {
        match self.root {
            Some(r) => if has_span(self.spans, r) {
                Some(self.spans[span_index(self.spans, r)].name)
            } else {
                None
            },
            None => None,
        }
    }

    /// Time from the earliest start to the latest end, 0 if the ends come first.
    pub open spec fn duration(self) -> u64 {
        saturating_diff(max_end(self.spans), min_start(self.spans))
    }
}

/// Represents a trace with all of the spans it created.
pub struct Trace {
    trace_id: TraceId,
    /// The root span id that created every other trace. Useful for display.
    root: Option<SpanId>,
    /// The spans by id, in the order their ids first arrived.
    spans: Vec<NormalizedSpan>,
    /// The latest start time of any span received for this trace, in Unix
    /// epoch nanoseconds.
    latest_span_time: u64,
}

impl View for Trace {
    type V = TraceView;

    closed spec fn view(&self) -> TraceView {
        TraceView {
            trace_id: self.trace_id@,
            root: self.root.deep_view(),
            spans: self.spans.deep_view(),
            latest_span_time: self.latest_span_time,
        }
    }
}

impl DeepView for Trace {
    type V = TraceView;

    open spec fn deep_view(&self) -> TraceView {
        self@
    }
}

pub fn clone_option_string(o: &Option<String>) -> (r: Option<String>)
    ensures
        r.deep_view() == o.deep_view(),
{
    match o {
        Some(s) => Some(s.clone()),
        None => None,
    }
}

impl Trace {
    /// Whether this trace satisfies what every trace does.
    pub open spec fn wf(&self) -> bool {
        self@.wf()
    }

    pub fn new_from_normalized_span(span: NormalizedSpan) -> (t: Trace)
        ensures
            t@ == TraceView::opened_by(span@),
            t.wf(),
    {
        let root = match &span.parent_span_id {
            None => Some(span.span_id.clone()),
            Some(_) => None,
        };
        let latest_span_time = span.start_unix_nano;
        let trace_id = span.trace_id.clone();
        let mut spans: Vec<NormalizedSpan> = Vec::new();
        spans.push(span);
        let t = Trace { trace_id, root, spans, latest_span_time };
        assert(t@.spans =~= seq![span@]);
        assert(t@.spans[0].span_id == span@.span_id);
        t
    }

    fn position_of(&self, id: &String) -> (r: Option<usize>)
        ensures
            match r {
                Some(i) => i < self@.spans.len() && self@.spans[i as int].span_id == id@,
                None => !has_span(self@.spans, id@),
            },
    {
        let mut i: usize = 0;
        while i < self.spans.len()
            invariant
                i <= self.spans.len(),
                forall|j: int| 0 <= j < i ==> self@.spans[j].span_id != id@,
            decreases self.spans.len() - i,
        {
            if self.spans[i].span_id == *id {
                return Some(i);
            }
            i = i + 1;
        }
        None
    }

    /// Takes in a span. A span of another trace id is refused (`false`, the
    /// trace unchanged); else it replaces the span with its id or joins the
    /// spans, and the result says whether it replaced one.
    pub fn insert_span(&mut self, span: NormalizedSpan) -> (replaced: bool)
        requires
            old(self).wf(),
        ensures
            final(self).wf(),
            span@.trace_id != old(self)@.trace_id ==> !replaced && final(self)@ == old(self)@,
            span@.trace_id == old(self)@.trace_id ==> final(self)@ == old(self)@.with_span(span@)
                && replaced == has_span(old(self)@.spans, span@.span_id),
    {
        if !(span.trace_id == self.trace_id) {
            return false;
        }
        let ghost before = self@;
        // If the root span came in later, then update it
        if self.root.is_none() && span.parent_span_id.is_none() {
            self.root = Some(span.span_id.clone());
        }
        if span.start_unix_nano > self.latest_span_time {
            self.latest_span_time = span.start_unix_nano;
        }
        let ghost sv = span@;
        let replaced = match self.position_of(&span.span_id) {
            Some(i) => {
                proof {
                    let c = span_index(before.spans, sv.span_id);
                    assert(before.spans[i as int].span_id == sv.span_id);
                    assert(c == i as int);
                }
                self.spans.set(i, span);
                true
            },
            None => {
                self.spans.push(span);
                false
            },
        };
        assert(self@.spans =~= upsert_span(before.spans, sv));
        proof {
            lemma_with_span(before, sv);
        }
        replaced
    }

    pub fn trace_id(&self) -> (id: &TraceId)
        ensures
            id@ == self@.trace_id,
    {
        &self.trace_id
    }

    /// The name of the root span, if the trace has one.
    pub fn root_name(&self) -> (name: Option<&str>)
        requires
            self.wf(),
        ensures
            name.deep_view() == self@.root_name(),
    {
        match &self.root {
            Some(root) => match self.position_of(root) {
                Some(i) => {
                    proof {
                        let c = span_index(self@.spans, root@);
                        assert(self@.spans[i as int].span_id == root@);
                        assert(c == i as int);
                    }
                    Some(self.spans[i].name.as_str())
                },
                None => None,
            },
            None => None,
        }
    }

    /// The span with id `span_id`, if the trace has one.
    pub fn span(&self, span_id: &SpanId) -> (s: Option<&NormalizedSpan>)
        requires
            self.wf(),
        ensures
            match s {
                Some(sp) => has_span(self@.spans, span_id@) && sp@ == self@.spans[span_index(
                    self@.spans,
                    span_id@,
                )],
                None => !has_span(self@.spans, span_id@),
            },
    {
        match self.position_of(span_id) {
            Some(i) => {
                proof {
                    let c = span_index(self@.spans, span_id@);
                    assert(self@.spans[i as int].span_id == span_id@);
                    assert(c == i as int);
                }
                Some(&self.spans[i])
            },
            None => None,
        }
    }

    /// Returns the start time of the earliest span within the trace, in
    /// Unix epoch nanoseconds.
    pub fn start_time(&self) -> (t: u64)
        ensures
            t == min_start(self@.spans),
    {
        self.start_unix_nano()
    }

    /// Returns the earliest absolute wall-clock timestamp in this trace, in
    /// Unix epoch nanoseconds.
    pub fn start_unix_nano(&self) -> (t: u64)
        ensures
            t == min_start(self@.spans),
    {
        if self.spans.len() == 0 {
            return 0;
        }
        let mut m: u64 = self.spans[0].start_unix_nano;
        let mut i: usize = 1;
        assert(self@.spans.take(1).drop_last() =~= Seq::<SpanView>::empty());
        while i < self.spans.len()
            invariant
                1 <= i <= self.spans.len(),
                m == min_start(self@.spans.take(i as int)),
            decreases self.spans.len() - i,
        {
            assert(self@.spans.take(i + 1).drop_last() =~= self@.spans.take(i as int));
            if self.spans[i].start_unix_nano < m {
                m = self.spans[i].start_unix_nano;
            }
            i = i + 1;
        }
        assert(self@.spans.take(i as int) =~= self@.spans);
        m
    }

    /// Returns the end time of the latest span within the trace, in Unix
    /// epoch nanoseconds.
    ///
    /// Note: this could be incomplete as a trace might not be complete as we are receiving
    /// more spans.
    pub fn end_time(&self) -> (t: u64)
        ensures
            t == max_end(self@.spans),
    {
        let mut m: u64 = 0;
        let mut i: usize = 0;
        while i < self.spans.len()
            invariant
                i <= self.spans.len(),
                m == max_end(self@.spans.take(i as int)),
            decreases self.spans.len() - i,
        {
            assert(self@.spans.take(i + 1).drop_last() =~= self@.spans.take(i as int));
            if self.spans[i].end_unix_nano > m {
                m = self.spans[i].end_unix_nano;
            }
            i = i + 1;
        }
        assert(self@.spans.take(i as int) =~= self@.spans);
        m
    }

    /// Returns the time difference between the first registered span under this
    /// trace and the last registered span under this trace, in nanoseconds.
    pub fn duration(&self) -> (d: u64)
        ensures
            d == self@.duration(),
    {
        let end = self.end_time();
        let start = self.start_time();
        if end >= start {
            end - start
        } else {
            0
        }
    }

    /// The latest start time of any span this trace has taken in, in Unix
    /// epoch nanoseconds.
    pub fn latest_span_time(&self) -> (t: u64)
        ensures
            t == self@.latest_span_time,
    {
        self.latest_span_time
    }

    pub fn span_count(&self) -> (n: usize)
        ensures
            n == self@.spans.len(),
    {
        self.spans.len()
    }

    /// The spans of the trace, one per span id.
    pub fn spans(&self) -> (s: &Vec<NormalizedSpan>)
        ensures
            s.deep_view() == self@.spans,
    {
        &self.spans
    }
}

/// Taking in a span of the trace's id keeps what every trace satisfies;
/// afterwards the span is in the trace under its id, every other span is
/// still there unchanged, a span count grows by one exactly when the id is
/// new, a root once set stays, and the latest span time never goes down.
pub proof fn lemma_with_span(t: TraceView, s: SpanView)
    requires
        t.wf(),
        s.trace_id == t.trace_id,
    ensures
        t.with_span(s).wf(),
        has_span(t.with_span(s).spans, s.span_id),
        t.with_span(s).spans[span_index(t.with_span(s).spans, s.span_id)] == s,
        forall|i: int| 0 <= i < t.spans.len() && t.spans[i].span_id != s.span_id ==> {
            &&& has_span(t.with_span(s).spans, #[trigger] t.spans[i].span_id)
            &&& t.with_span(s).spans[span_index(t.with_span(s).spans, t.spans[i].span_id)] == t.spans[i]
        },
        t.with_span(s).spans.len() == t.spans.len() + if has_span(t.spans, s.span_id) { 0int } else { 1int },
        t.root is Some ==> t.with_span(s).root == t.root,
        t.with_span(s).latest_span_time >= t.latest_span_time,
{
    let u = t.with_span(s);
    let n = t.spans.len() as int;
    let p = if has_span(t.spans, s.span_id) { span_index(t.spans, s.span_id) } else { n };
    assert(u.spans[p] == s);
    assert(forall|a: int| 0 <= a < u.spans.len() && a != p ==> u.spans[a] == t.spans[a]);
    assert forall|a: int, b: int| 0 <= a < u.spans.len() && 0 <= b < u.spans.len() && a != b
        implies #[trigger] u.spans[a].span_id != #[trigger] u.spans[b].span_id by {
        if a != p && b != p {
            assert(u.spans[a] == t.spans[a] && u.spans[b] == t.spans[b]);
        } else if a == p {
            assert(u.spans[b] == t.spans[b]);
            if p < n {
                assert(t.spans[p].span_id == s.span_id);
            }
        } else {
            assert(u.spans[a] == t.spans[a]);
            if p < n {
                assert(t.spans[p].span_id == s.span_id);
            }
        }
    }
    assert forall|a: int| 0 <= a < u.spans.len() implies #[trigger] u.spans[a].trace_id == u.trace_id by {
        if a != p {
            assert(u.spans[a] == t.spans[a]);
        }
    }
    assert forall|a: int| 0 <= a < u.spans.len() implies #[trigger] u.spans[a].start_unix_nano <= u.latest_span_time by {
        if a != p {
            assert(u.spans[a] == t.spans[a]);
        }
    }
    match u.root {
        Some(r) => {
            if r == s.span_id {
                assert(u.spans[p].span_id == r);
            } else {
                let k = span_index(t.spans, r);
                assert(t.spans[k].span_id == r);
                assert(k != p);
                assert(u.spans[k].span_id == r);
            }
        },
        None => {
            assert forall|a: int| 0 <= a < u.spans.len() implies #[trigger] u.spans[a].parent_span_id is Some by {
                if a != p {
                    assert(u.spans[a] == t.spans[a]);
                }
            }
        },
    }
    assert(u.spans[span_index(u.spans, s.span_id)].span_id == s.span_id);
    assert(span_index(u.spans, s.span_id) == p);
    assert forall|i: int| 0 <= i < t.spans.len() && t.spans[i].span_id != s.span_id implies {
        &&& has_span(u.spans, #[trigger] t.spans[i].span_id)
        &&& u.spans[span_index(u.spans, t.spans[i].span_id)] == t.spans[i]
    } by {
        assert(i != p);
        assert(u.spans[i] == t.spans[i]);
        let c = span_index(u.spans, t.spans[i].span_id);
        assert(u.spans[c].span_id == t.spans[i].span_id);
    }
}

/// The earliest start is the start of some span and no span starts before it.
pub proof fn lemma_min_start(spans: Seq<SpanView>)
    requires
        spans.len() > 0,
    ensures
        forall|i: int| 0 <= i < spans.len() ==> min_start(spans) <= #[trigger] spans[i].start_unix_nano,
        exists|i: int| 0 <= i < spans.len() && min_start(spans) == #[trigger] spans[i].start_unix_nano,
    decreases spans.len(),
{
    if spans.len() > 1 {
        let d = spans.drop_last();
        lemma_min_start(d);
        assert forall|i: int| 0 <= i < spans.len() implies min_start(spans) <= #[trigger] spans[i].start_unix_nano by {
            if i < d.len() {
                assert(spans[i] == d[i]);
            }
        }
        if spans.last().start_unix_nano < min_start(d) {
            assert(spans[spans.len() - 1] == spans.last());
        } else {
            let k = choose|k: int| 0 <= k < d.len() && min_start(d) == #[trigger] d[k].start_unix_nano;
            assert(spans[k] == d[k]);
        }
    } else {
        assert(min_start(spans) == spans[0].start_unix_nano);
    }
}

/// The latest end is the end of some span (0 for no spans) and no span
/// ends after it.
pub proof fn lemma_max_end(spans: Seq<SpanView>)
    ensures
        forall|i: int| 0 <= i < spans.len() ==> #[trigger] spans[i].end_unix_nano <= max_end(spans),
        spans.len() > 0 ==> exists|i: int| 0 <= i < spans.len() && max_end(spans) == #[trigger] spans[i].end_unix_nano,
        spans.len() == 0 ==> max_end(spans) == 0,
    decreases spans.len(),
{
    if spans.len() > 0 {
        let d = spans.drop_last();
        lemma_max_end(d);
        assert forall|i: int| 0 <= i < spans.len() implies #[trigger] spans[i].end_unix_nano <= max_end(spans) by {
            if i < d.len() {
                assert(spans[i] == d[i]);
            }
        }
        if spans.last().end_unix_nano > max_end(d) || d.len() == 0 {
            assert(spans[spans.len() - 1] == spans.last());
            if d.len() == 0 && spans.last().end_unix_nano <= max_end(d) {
                assert(max_end(spans) == 0);
                assert(spans.last().end_unix_nano == 0);
            }
        } else {
            let k = choose|k: int| 0 <= k < d.len() && max_end(d) == #[trigger] d[k].end_unix_nano;
            assert(spans[k] == d[k]);
        }
    }
}

/// The trace that `first` opens, after taking in `later` in order; a span
/// of another trace id is passed over, as `Trace::insert_span` does.
pub open spec fn trace_history(first: SpanView, later: Seq<SpanView>) -> TraceView
    decreases later.len(),
{
    if later.len() == 0 {
        TraceView::opened_by(first)
    } else {
        let t = trace_history(first, later.drop_last());
        if later.last().trace_id == t.trace_id {
            t.with_span(later.last())
        } else {
            t
        }
    }
}

/// Span `i` of `spans` could be the root of the trace that `spans[0]`
/// opens: it has that trace id and no parent.
pub open spec fn root_candidate(spans: Seq<SpanView>, i: int) -> bool {
    spans[i].trace_id == spans[0].trace_id && spans[i].parent_span_id is None
}

/// Over any history of a trace, the root is the first span without a
/// parent that the trace took in, and there is none while no such span
/// came; later spans without a parent never displace it. The trace stays
/// well formed, so the root's name is the name of the span now held under
/// that id.
pub proof fn lemma_root_is_first_parentless(first: SpanView, later: Seq<SpanView>)
    ensures
        trace_history(first, later).wf(),
        trace_history(first, later).trace_id == first.trace_id,
        ({
            let all = seq![first] + later;
            match trace_history(first, later).root {
                Some(r) => exists|i: int|
                    #![trigger all[i]]
                    0 <= i < all.len() && root_candidate(all, i) && all[i].span_id == r
                        && forall|j: int| 0 <= j < i ==> !root_candidate(all, j),
                None => forall|i: int| 0 <= i < all.len() ==> !root_candidate(all, i),
            }
        }),
        trace_history(first, later).root is Some <==> trace_history(first, later).root_name() is Some,
    decreases later.len(),
{
    let all = seq![first] + later;
    let t = trace_history(first, later);
    if later.len() == 0 {
        assert(all[0] == first);
        assert(t.spans[0].span_id == first.span_id);
    } else {
        lemma_root_is_first_parentless(first, later.drop_last());
        let prev = trace_history(first, later.drop_last());
        let before = seq![first] + later.drop_last();
        assert(before =~= all.drop_last());
        let s = later.last();
        let n = all.len() - 1;
        assert(all[n] == s);
        assert(all[0] == first);
        assert(before[0] == first);
        assert forall|j: int| 0 <= j < n implies all[j] == before[j] by {}
        if s.trace_id == prev.trace_id {
            lemma_with_span(prev, s);
        }
        match prev.root {
            Some(r) => {
                let i = choose|i: int|
                    #![trigger before[i]]
                    0 <= i < before.len() && root_candidate(before, i) && before[i].span_id == r
                        && forall|j: int| 0 <= j < i ==> !root_candidate(before, j);
                assert(all[i] == before[i]);
                assert forall|j: int| 0 <= j < i implies !root_candidate(all, j) by {
                    assert(all[j] == before[j]);
                    assert(!root_candidate(before, j));
                }
            },
            None => {
                assert forall|j: int| 0 <= j < n implies !root_candidate(all, j) by {
                    assert(all[j] == before[j]);
                    assert(!root_candidate(before, j));
                }
            },
        }
    }
}

/// Taking in the same span twice is the same as taking it in once.
pub proof fn lemma_with_span_twice(t: TraceView, s: SpanView)
    requires
        t.wf(),
        s.trace_id == t.trace_id,
    ensures
        t.with_span(s).with_span(s) == t.with_span(s),
{
    lemma_with_span(t, s);
    let u = t.with_span(s);
    let p = span_index(u.spans, s.span_id);
    assert(u.spans.update(p, s) =~= u.spans);
}

} // verus!
