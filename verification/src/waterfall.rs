//! The waterfall of a trace: its spans in tree order, each child under
//! its parent one level deeper, siblings by start time, and the spans
//! that the walk from the roots does not reach after them at depth 0.

use vstd::prelude::*;
use crate::sorting::{sort_by, key_order, lemma_sort_by_multiset, lemma_sort_by_members, lemma_sort_by_stable, sorted_stably, sort_positions, all_below};
use crate::types::{NormalizedSpan, SpanView, SpanId};

verus! {

/// One line of the waterfall.
pub struct SpanRow {
    pub span_id: SpanId,
    pub depth: usize,
    pub name: String,
    /// Absolute wall-clock start timestamp for this span, in Unix epoch nanoseconds.
    pub start_unix_nano: u64,
    /// Absolute wall-clock end timestamp for this span, in Unix epoch nanoseconds.
    pub end_unix_nano: u64,
}

/// The mathematical form of a `SpanRow`.
pub struct RowView {
    pub span_id: Seq<char>,
    pub depth: nat,
    pub name: Seq<char>,
    pub start_unix_nano: u64,
    pub end_unix_nano: u64,
}

impl View for SpanRow {
    type V = RowView;

    open spec fn view(&self) -> RowView {
        RowView {
            span_id: self.span_id@,
            depth: self.depth as nat,
            name: self.name@,
            start_unix_nano: self.start_unix_nano,
            end_unix_nano: self.end_unix_nano,
        }
    }
}

impl DeepView for SpanRow {
    type V = RowView;

    open spec fn deep_view(&self) -> RowView {
        self@
    }
}

/// The row that shows span `s` at `depth`.
pub open spec fn row_of(s: SpanView, depth: nat) -> RowView {
    RowView {
        span_id: s.span_id,
        depth,
        name: s.name,
        start_unix_nano: s.start_unix_nano,
        end_unix_nano: s.end_unix_nano,
    }
}

/// The rows for a list of (position, depth) entries.
pub open spec fn rows_of(spans: Seq<SpanView>, entries: Seq<(usize, nat)>) -> Seq<RowView> {
    Seq::new(entries.len(), |k: int| row_of(spans[entries[k].0 as int], entries[k].1))
}

/// The start times of the spans, by position.
pub open spec fn start_keys(spans: Seq<SpanView>) -> Seq<u64> {
    Seq::new(spans.len(), |i: int| spans[i].start_unix_nano)
}

/// Positions below `n` of the spans whose parent is `parent`, in span order.
pub open spec fn positions_with_parent(spans: Seq<SpanView>, parent: Option<Seq<char>>, n: nat) -> Seq<usize>
    decreases n,
{
    if n == 0 {
        Seq::empty()
    } else {
        let r = positions_with_parent(spans, parent, (n - 1) as nat);
        if spans[n - 1].parent_span_id == parent {
            r.push((n - 1) as usize)
        } else {
            r
        }
    }
}

/// The children of `parent` (the spans without a parent for `None`): in
/// span order, then stably by start time.
pub open spec fn children(spans: Seq<SpanView>, parent: Option<Seq<char>>) -> Seq<usize> {
    sort_by(positions_with_parent(spans, parent, spans.len()), key_order(start_keys(spans), false))
}

/// Depth-first walk over `list` and the children of each span it visits;
/// a visited span is skipped. Gives the (position, depth) entries it
/// emits and the visited marks after it. `fuel` bounds the nesting.
pub open spec fn walk(
    spans: Seq<SpanView>,
    list: Seq<usize>,
    depth: nat,
    visited: Seq<bool>,
    fuel: nat,
) -> (Seq<(usize, nat)>, Seq<bool>)
    decreases fuel, list.len(),
{
    if fuel == 0 || list.len() == 0 {
        (Seq::empty(), visited)
    } else {
        let s = list[0];
        if visited[s as int] {
            walk(spans, list.drop_first(), depth, visited, fuel)
        } else {
            let inner = walk(
                spans,
                children(spans, Some(spans[s as int].span_id)),
                depth + 1,
                visited.update(s as int, true),
                (fuel - 1) as nat,
            );
            let rest = walk(spans, list.drop_first(), depth, inner.1, fuel);
            (seq![(s, depth)] + inner.0 + rest.0, rest.1)
        }
    }
}

/// Positions below `n` that `visited` does not mark, at depth 0.
pub open spec fn unvisited(visited: Seq<bool>, n: nat) -> Seq<(usize, nat)>
    decreases n,
{
    if n == 0 {
        Seq::empty()
    } else {
        let r = unvisited(visited, (n - 1) as nat);
        if !visited[n - 1] {
            r.push(((n - 1) as usize, 0nat))
        } else {
            r
        }
    }
}

/// The (position, depth) entries of the waterfall: the walk from the
/// spans without a parent, then every span it did not reach, at depth 0.
pub open spec fn waterfall(spans: Seq<SpanView>) -> Seq<(usize, nat)> {
    let n = spans.len();
    let w = walk(spans, children(spans, None), 0, Seq::new(n, |i: int| false), n);
    w.0 + unvisited(w.1, n)
}

/// The number of positions that `v` does not mark.
pub open spec fn count_unvisited(v: Seq<bool>) -> nat
    decreases v.len(),
{
    if v.len() == 0 {
        0
    } else {
        count_unvisited(v.drop_last()) + if v.last() {
            0nat
        } else {
            1nat
        }
    }
}

/// `b` marks every position that `a` marks.
pub open spec fn grows(a: Seq<bool>, b: Seq<bool>) -> bool {
    &&& b.len() == a.len()
    &&& forall|i: int| 0 <= i < a.len() && #[trigger] a[i] ==> b[i]
}

proof fn lemma_count_mark(v: Seq<bool>, i: int)
    requires
        0 <= i < v.len(),
        !v[i],
    ensures
        count_unvisited(v.update(i, true)) + 1 == count_unvisited(v),
    decreases v.len(),
{
    let w = v.update(i, true);
    if i == v.len() - 1 {
        assert(w.drop_last() =~= v.drop_last());
    } else {
        assert(w.drop_last() =~= v.drop_last().update(i, true));
        lemma_count_mark(v.drop_last(), i);
    }
}

proof fn lemma_count_grows(a: Seq<bool>, b: Seq<bool>)
    requires
        grows(a, b),
    ensures
        count_unvisited(b) <= count_unvisited(a),
    decreases a.len(),
{
    if a.len() > 0 {
        lemma_count_grows(a.drop_last(), b.drop_last());
        assert(a.last() ==> b.last());
    }
}

proof fn lemma_count_positive(v: Seq<bool>, i: int)
    requires
        0 <= i < v.len(),
        !v[i],
    ensures
        count_unvisited(v) >= 1,
{
    lemma_count_mark(v, i);
}

/// Every entry of `list` is a position below `n`.
pub open spec fn in_range(list: Seq<usize>, n: nat) -> bool {
    forall|k: int| 0 <= k < list.len() ==> #[trigger] list[k] < n
}

proof fn lemma_positions_in_range(spans: Seq<SpanView>, parent: Option<Seq<char>>, n: nat)
    ensures
        in_range(positions_with_parent(spans, parent, n), n),
    decreases n,
{
    if n > 0 {
        lemma_positions_in_range(spans, parent, (n - 1) as nat);
    }
}

proof fn lemma_positions_with_parent(spans: Seq<SpanView>, parent: Option<Seq<char>>, n: nat)
    requires
        n <= spans.len(),
        spans.len() <= usize::MAX,
    ensures
        forall|i: int, j: int| 0 <= i < j < positions_with_parent(spans, parent, n).len() ==>
            #[trigger] positions_with_parent(spans, parent, n)[i] < #[trigger] positions_with_parent(spans, parent, n)[j],
        forall|k: int| 0 <= k < positions_with_parent(spans, parent, n).len() ==> {
            &&& #[trigger] positions_with_parent(spans, parent, n)[k] < n
            &&& spans[positions_with_parent(spans, parent, n)[k] as int].parent_span_id == parent
        },
        forall|j: int| 0 <= j < n && (#[trigger] spans[j]).parent_span_id == parent ==>
            positions_with_parent(spans, parent, n).contains(j as usize),
    decreases n,
{
    if n > 0 {
        lemma_positions_with_parent(spans, parent, (n - 1) as nat);
        let r = positions_with_parent(spans, parent, (n - 1) as nat);
        let q = positions_with_parent(spans, parent, n);
        if spans[n - 1].parent_span_id == parent {
            assert(q == r.push((n - 1) as usize));
            assert(q[r.len() as int] == (n - 1) as usize);
            assert forall|j: int| 0 <= j < n && (#[trigger] spans[j]).parent_span_id == parent implies q.contains(j as usize) by {
                if j < n - 1 {
                    let m = choose|m: int| 0 <= m < r.len() && r[m] == j as usize;
                    assert(q[m] == r[m]);
                }
            }
        }
    }
}

/// The children of `parent` are exactly the spans whose parent is
/// `parent`, each once, ordered by start time; spans that start at the
/// same time keep the order in which they came.
pub proof fn lemma_children_by_start(spans: Seq<SpanView>, parent: Option<Seq<char>>)
    requires
        spans.len() <= usize::MAX,
    ensures
        ({
            let c = children(spans, parent);
            &&& c.no_duplicates()
            &&& forall|k: int| 0 <= k < c.len() ==> #[trigger] c[k] < spans.len()
                && spans[c[k] as int].parent_span_id == parent
            &&& forall|j: int| 0 <= j < spans.len() && (#[trigger] spans[j]).parent_span_id == parent ==> c.contains(j as usize)
            &&& forall|i: int, j: int| 0 <= i < j < c.len() ==> {
                ||| spans[#[trigger] c[i] as int].start_unix_nano < spans[#[trigger] c[j] as int].start_unix_nano
                ||| spans[c[i] as int].start_unix_nano == spans[c[j] as int].start_unix_nano && c[i] < c[j]
            }
        }),
{
    broadcast use vstd::seq_lib::group_to_multiset_ensures;

    let keys = start_keys(spans);
    let le = key_order(keys, false);
    let p = positions_with_parent(spans, parent, spans.len());
    let c = children(spans, parent);
    lemma_positions_with_parent(spans, parent, spans.len());
    lemma_sort_by_stable(p, keys);
    lemma_sort_by_members(p, le);
    lemma_sort_by_multiset(p, le);
    assert(p.no_duplicates()) by {
        assert forall|i: int, j: int| 0 <= i < p.len() && 0 <= j < p.len() && i != j implies p[i] != p[j] by {
            if i < j {
                assert(p[i] < p[j]);
            } else {
                assert(p[j] < p[i]);
            }
        }
    }
    assert forall|k: int| 0 <= k < c.len() implies #[trigger] c[k] < spans.len()
        && spans[c[k] as int].parent_span_id == parent by {
        let m = choose|m: int| 0 <= m < p.len() && p[m] == c[k];
    }
    assert forall|j: int| 0 <= j < spans.len() && (#[trigger] spans[j]).parent_span_id == parent implies c.contains(j as usize) by {
        assert(p.contains(j as usize));
        assert(p.to_multiset().count(j as usize) > 0);
        assert(c.to_multiset().count(j as usize) > 0);
    }
    assert forall|i: int, j: int| 0 <= i < j < c.len() implies {
        ||| spans[#[trigger] c[i] as int].start_unix_nano < spans[#[trigger] c[j] as int].start_unix_nano
        ||| spans[c[i] as int].start_unix_nano == spans[c[j] as int].start_unix_nano && c[i] < c[j]
    } by {
        assert(sorted_stably(c, keys));
        assert(crate::sorting::key_then_position(keys, c[i], c[j]));
        let mi = choose|m: int| 0 <= m < p.len() && p[m] == c[i];
        let mj = choose|m: int| 0 <= m < p.len() && p[m] == c[j];
        assert(keys[c[i] as int] == spans[c[i] as int].start_unix_nano);
        assert(keys[c[j] as int] == spans[c[j] as int].start_unix_nano);
        assert(c[i] != c[j]);
    }
}

/// Children are positions of spans.
pub proof fn lemma_children_in_range(spans: Seq<SpanView>, parent: Option<Seq<char>>)
    ensures
        in_range(children(spans, parent), spans.len()),
{
    broadcast use vstd::seq_lib::group_to_multiset_ensures;

    let p = positions_with_parent(spans, parent, spans.len());
    lemma_positions_in_range(spans, parent, spans.len());
    lemma_sort_by_multiset(p, key_order(start_keys(spans), false));
    let c = children(spans, parent);
    assert forall|k: int| 0 <= k < c.len() implies #[trigger] c[k] < spans.len() by {
        assert(c.contains(c[k]));
        assert(p.to_multiset().count(c[k]) > 0);
        assert(p.contains(c[k]));
    }
}

proof fn lemma_grows_trans(a: Seq<bool>, b: Seq<bool>, c: Seq<bool>)
    requires
        grows(a, b),
        grows(b, c),
    ensures
        grows(a, c),
{
    assert forall|i: int| 0 <= i < a.len() && #[trigger] a[i] implies c[i] by {
        assert(b[i]);
    }
}

/// The walk only marks more positions.
pub proof fn lemma_walk_grows(
    spans: Seq<SpanView>,
    list: Seq<usize>,
    depth: nat,
    visited: Seq<bool>,
    fuel: nat,
)
    requires
        in_range(list, visited.len()),
        visited.len() == spans.len(),
    ensures
        grows(visited, walk(spans, list, depth, visited, fuel).1),
    decreases fuel, list.len(),
{
    if fuel == 0 || list.len() == 0 {
    } else {
        let s = list[0];
        assert(in_range(list.drop_first(), visited.len())) by {
            assert forall|k: int| 0 <= k < list.drop_first().len() implies #[trigger] list.drop_first()[k] < visited.len() by {
                assert(list.drop_first()[k] == list[k + 1]);
            }
        }
        if visited[s as int] {
            lemma_walk_grows(spans, list.drop_first(), depth, visited, fuel);
        } else {
            let v1 = visited.update(s as int, true);
            lemma_children_in_range(spans, Some(spans[s as int].span_id));
            lemma_walk_grows(
                spans,
                children(spans, Some(spans[s as int].span_id)),
                depth + 1,
                v1,
                (fuel - 1) as nat,
            );
            let inner = walk(spans, children(spans, Some(spans[s as int].span_id)), depth + 1, v1, (fuel - 1) as nat);
            lemma_walk_grows(spans, list.drop_first(), depth, inner.1, fuel);
            let rest = walk(spans, list.drop_first(), depth, inner.1, fuel);
            assert(grows(visited, v1));
            lemma_grows_trans(visited, v1, inner.1);
            lemma_grows_trans(visited, inner.1, rest.1);
        }
    }
}

fn same_parent(a: &Option<String>, b: &Option<String>) -> (r: bool)
    ensures
        r == (a.deep_view() == b.deep_view()),
{
    match (a, b) {
        (Some(x), Some(y)) => *x == *y,
        (None, None) => true,
        _ => false,
    }
}

fn children_of(spans: &Vec<NormalizedSpan>, parent: &Option<String>) -> (r: Vec<usize>)
    ensures
        r@ == children(spans.deep_view(), parent.deep_view()),
        in_range(r@, spans.len() as nat),
{
    let ghost sp = spans.deep_view();
    let mut found: Vec<usize> = Vec::new();
    let mut keys: Vec<u64> = Vec::new();
    let mut i: usize = 0;
    while i < spans.len()
        invariant
            sp == spans.deep_view(),
            i <= spans.len(),
            found@ == positions_with_parent(sp, parent.deep_view(), i as nat),
            keys@ =~= start_keys(sp).take(i as int),
            all_below(found@, i as nat),
        decreases spans.len() - i,
    {
        if same_parent(&spans[i].parent_span_id, parent) {
            found.push(i);
        }
        keys.push(spans[i].start_unix_nano);
        i = i + 1;
    }
    assert(keys@ =~= start_keys(sp));
    let r = sort_positions(&keys, &found, false);
    r
}

proof fn lemma_walk_unfold(
    spans: Seq<SpanView>,
    list: Seq<usize>,
    i: int,
    depth: nat,
    visited: Seq<bool>,
    fuel: nat,
)
    requires
        0 <= i < list.len(),
        fuel > 0,
    ensures
        list.skip(i).len() > 0,
        list.skip(i)[0] == list[i],
        list.skip(i).drop_first() == list.skip(i + 1),
{
    assert(list.skip(i).drop_first() =~= list.skip(i + 1));
}

/// Children lists for every span, as `children` gives them.
spec fn lists_ok(spans: Seq<SpanView>, lists: Seq<Vec<usize>>) -> bool {
    &&& lists.len() == spans.len()
    &&& forall|j: int| 0 <= j < spans.len() ==> #[trigger] lists[j]@ == children(spans, Some(spans[j].span_id))
}

fn append_children(
    spans: &Vec<NormalizedSpan>,
    lists: &Vec<Vec<usize>>,
    list: &Vec<usize>,
    depth: usize,
    visited: &mut Vec<bool>,
    rows: &mut Vec<SpanRow>,
    Ghost(fuel): Ghost<nat>,
)
    requires
        lists_ok(spans.deep_view(), lists@),
        in_range(list@, spans.len() as nat),
        old(visited).len() == spans.len(),
        fuel >= count_unvisited(old(visited)@),
        depth + fuel <= spans.len(),
    ensures
        final(visited)@ == walk(spans.deep_view(), list@, depth as nat, old(visited)@, fuel).1,
        final(rows).deep_view() == old(rows).deep_view() + rows_of(
            spans.deep_view(),
            walk(spans.deep_view(), list@, depth as nat, old(visited)@, fuel).0,
        ),
    decreases fuel,
{
    let ghost sp = spans.deep_view();
    let ghost v0 = visited@;
    let ghost whole = walk(sp, list@, depth as nat, v0, fuel);
    let ghost mut out: Seq<(usize, nat)> = Seq::empty();
    let ghost rows0 = rows.deep_view();
    let mut i: usize = 0;
    assert(list@.skip(0) =~= list@);
    while i < list.len()
        invariant
            sp == spans.deep_view(),
            lists_ok(sp, lists@),
            in_range(list@, spans.len() as nat),
            depth + fuel <= spans.len(),
            i <= list.len(),
            visited.len() == spans.len(),
            fuel >= count_unvisited(visited@),
            whole == walk(sp, list@, depth as nat, v0, fuel),
            whole.0 == out + walk(sp, list@.skip(i as int), depth as nat, visited@, fuel).0,
            whole.1 == walk(sp, list@.skip(i as int), depth as nat, visited@, fuel).1,
            rows.deep_view() == rows0 + rows_of(sp, out),
        decreases list.len() - i,
    {
        let s = list[i];
        proof {
            if fuel > 0 {
                lemma_walk_unfold(sp, list@, i as int, depth as nat, visited@, fuel);
            }
        }
        if !visited[s] {
            proof {
                lemma_count_positive(visited@, s as int);
            }
            let ghost vi = visited@;
            let ghost v1 = vi.update(s as int, true);
            let ghost kids = children(sp, Some(sp[s as int].span_id));
            let ghost inner = walk(sp, kids, depth as nat + 1, v1, (fuel - 1) as nat);
            let ghost rest = walk(sp, list@.skip(i + 1), depth as nat, inner.1, fuel);
            proof {
                lemma_count_mark(vi, s as int);
                lemma_children_in_range(sp, Some(sp[s as int].span_id));
                lemma_walk_grows(sp, kids, depth as nat + 1, v1, (fuel - 1) as nat);
                lemma_count_grows(v1, inner.1);
            }
            visited.set(s, true);
            assert(visited@ == v1);
            let row = SpanRow {
                span_id: spans[s].span_id.clone(),
                depth,
                name: spans[s].name.clone(),
                start_unix_nano: spans[s].start_unix_nano,
                end_unix_nano: spans[s].end_unix_nano,
            };
            assert(row@ == row_of(sp[s as int], depth as nat));
            let ghost rows_before = rows.deep_view();
            rows.push(row);
            let ghost rows1 = rows.deep_view();
            assert(rows1 =~= rows_before.push(row@));
            assert(rows_of(sp, out + seq![(s, depth as nat)]) =~= rows_of(sp, out).push(row@));
            assert(rows1 =~= rows0 + rows_of(sp, out + seq![(s, depth as nat)]));
            assert(lists@[s as int]@ == kids);
            append_children(spans, lists, &lists[s], depth + 1, visited, rows, Ghost((fuel - 1) as nat));
            proof {
                assert(rows.deep_view() =~= rows0 + rows_of(sp, out + seq![(s, depth as nat)] + inner.0));
                assert(whole.0 =~= (out + seq![(s, depth as nat)] + inner.0) + rest.0);
                out = out + seq![(s, depth as nat)] + inner.0;
            }
        }
        i = i + 1;
    }
    proof {
        assert(list@.skip(i as int) =~= Seq::<usize>::empty());
        assert(whole.0 =~= out);
    }
}

/// The rows of the waterfall of `spans`.
pub fn span_rows(spans: &Vec<NormalizedSpan>) -> (rows: Vec<SpanRow>)
    ensures
        rows.deep_view() == rows_of(spans.deep_view(), waterfall(spans.deep_view())),
{
    let ghost sp = spans.deep_view();
    let n = spans.len();
    let mut lists: Vec<Vec<usize>> = Vec::new();
    let mut j: usize = 0;
    while j < n
        invariant
            sp == spans.deep_view(),
            n == spans.len(),
            j <= n,
            lists.len() == j,
            forall|k: int| 0 <= k < j ==> #[trigger] lists@[k]@ == children(sp, Some(sp[k].span_id)),
        decreases n - j,
    {
        let parent = Some(spans[j].span_id.clone());
        let c = children_of(spans, &parent);
        lists.push(c);
        j = j + 1;
    }
    let roots = children_of(spans, &None);
    let mut visited: Vec<bool> = Vec::new();
    let mut k: usize = 0;
    while k < n
        invariant
            k <= n,
            visited@ =~= Seq::new(k as nat, |i: int| false),
            count_unvisited(visited@) == k,
        decreases n - k,
    {
        let ghost before = visited@;
        visited.push(false);
        assert(visited@.drop_last() =~= before);
        k = k + 1;
    }
    let mut rows: Vec<SpanRow> = Vec::new();
    let ghost v0 = visited@;
    append_children(spans, &lists, &roots, 0, &mut visited, &mut rows, Ghost(n as nat));
    let ghost w = walk(sp, roots@, 0, v0, n as nat);
    assert(v0 =~= Seq::new(sp.len(), |i: int| false));
    proof {
        lemma_walk_grows(sp, roots@, 0, v0, n as nat);
    }
    let ghost rows_w = rows.deep_view();
    let mut i: usize = 0;
    while i < n
        invariant
            sp == spans.deep_view(),
            n == spans.len(),
            i <= n,
            visited@ == w.1,
            w.1.len() == n,
            rows.deep_view() == rows_w + rows_of(sp, unvisited(w.1, i as nat)),
        decreases n - i,
    {
        let ghost rows_before = rows.deep_view();
        if !visited[i] {
            let row = SpanRow {
                span_id: spans[i].span_id.clone(),
                depth: 0,
                name: spans[i].name.clone(),
                start_unix_nano: spans[i].start_unix_nano,
                end_unix_nano: spans[i].end_unix_nano,
            };
            assert(row@ == row_of(sp[i as int], 0));
            rows.push(row);
            assert(rows.deep_view() =~= rows_before.push(row@));
            assert(rows_of(sp, unvisited(w.1, (i + 1) as nat)) =~= rows_of(sp, unvisited(w.1, i as nat)).push(row@));
        } else {
            assert(unvisited(w.1, (i + 1) as nat) == unvisited(w.1, i as nat));
        }
        assert(rows.deep_view() =~= rows_w + rows_of(sp, unvisited(w.1, (i + 1) as nat)));
        i = i + 1;
    }
    assert(rows.deep_view() =~= rows_of(sp, w.0 + unvisited(w.1, n as nat)));
    rows
}

/// What the walk emits: positions it newly marks, each once, and every
/// position it newly marks.
pub open spec fn emits_marked(out: Seq<(usize, nat)>, before: Seq<bool>, after: Seq<bool>) -> bool {
    &&& forall|k: int| 0 <= k < out.len() ==> (#[trigger] out[k]).0 < before.len() && !before[out[k].0 as int] && after[out[k].0 as int]
    &&& forall|k1: int, k2: int| 0 <= k1 < k2 < out.len() ==> (#[trigger] out[k1]).0 != (#[trigger] out[k2]).0
    &&& forall|i: int| 0 <= i < before.len() && #[trigger] after[i] && !before[i] ==> exists|k: int| 0 <= k < out.len() && (#[trigger] out[k]).0 == i
}

proof fn lemma_walk_emits(
    spans: Seq<SpanView>,
    list: Seq<usize>,
    depth: nat,
    visited: Seq<bool>,
    fuel: nat,
)
    requires
        in_range(list, visited.len()),
        visited.len() == spans.len(),
    ensures
        emits_marked(walk(spans, list, depth, visited, fuel).0, visited, walk(spans, list, depth, visited, fuel).1),
    decreases fuel, list.len(),
{
    lemma_walk_grows(spans, list, depth, visited, fuel);
    if fuel == 0 || list.len() == 0 {
    } else {
        let s = list[0];
        assert(in_range(list.drop_first(), visited.len())) by {
            assert forall|k: int| 0 <= k < list.drop_first().len() implies #[trigger] list.drop_first()[k] < visited.len() by {
                assert(list.drop_first()[k] == list[k + 1]);
            }
        }
        if visited[s as int] {
            lemma_walk_emits(spans, list.drop_first(), depth, visited, fuel);
        } else {
            let v1 = visited.update(s as int, true);
            let kids = children(spans, Some(spans[s as int].span_id));
            lemma_children_in_range(spans, Some(spans[s as int].span_id));
            lemma_walk_grows(spans, kids, depth + 1, v1, (fuel - 1) as nat);
            lemma_walk_emits(spans, kids, depth + 1, v1, (fuel - 1) as nat);
            let inner = walk(spans, kids, depth + 1, v1, (fuel - 1) as nat);
            lemma_walk_grows(spans, list.drop_first(), depth, inner.1, fuel);
            lemma_walk_emits(spans, list.drop_first(), depth, inner.1, fuel);
            let rest = walk(spans, list.drop_first(), depth, inner.1, fuel);
            let out = seq![(s, depth)] + inner.0 + rest.0;
            let v2 = rest.1;
            assert(walk(spans, list, depth, visited, fuel) == (out, v2));
            let a = inner.0.len();
            assert forall|k: int| 0 <= k < out.len() implies (#[trigger] out[k]).0 < visited.len() && !visited[out[k].0 as int] && v2[out[k].0 as int] by {
                if k == 0 {
                    assert(v1[s as int]);
                    assert(inner.1[s as int]);
                } else if k <= a {
                    assert(out[k] == inner.0[k - 1]);
                    let e = inner.0[k - 1].0 as int;
                    if visited[e] {
                        assert(v1[e]);
                    }
                } else {
                    assert(out[k] == rest.0[k - 1 - a]);
                    let e = rest.0[k - 1 - a].0 as int;
                    if visited[e] {
                        assert(v1[e]);
                        assert(inner.1[e]);
                    }
                }
            }
            assert forall|k1: int, k2: int| 0 <= k1 < k2 < out.len() implies (#[trigger] out[k1]).0 != (#[trigger] out[k2]).0 by {
                if k1 == 0 {
                    if k2 <= a {
                        assert(out[k2] == inner.0[k2 - 1]);
                    } else {
                        assert(out[k2] == rest.0[k2 - 1 - a]);
                        assert(v1[s as int]);
                        assert(inner.1[s as int]);
                    }
                } else if k1 <= a {
                    assert(out[k1] == inner.0[k1 - 1]);
                    if k2 <= a {
                        assert(out[k2] == inner.0[k2 - 1]);
                    } else {
                        assert(out[k2] == rest.0[k2 - 1 - a]);
                    }
                } else {
                    assert(out[k1] == rest.0[k1 - 1 - a]);
                    assert(out[k2] == rest.0[k2 - 1 - a]);
                }
            }
            assert forall|i: int| 0 <= i < visited.len() && #[trigger] v2[i] && !visited[i] implies exists|k: int| 0 <= k < out.len() && (#[trigger] out[k]).0 == i by {
                if i == s as int {
                    assert(out[0].0 == i);
                } else if inner.1[i] {
                    assert(!v1[i]);
                    let k = choose|k: int| 0 <= k < inner.0.len() && (#[trigger] inner.0[k]).0 == i;
                    assert(out[k + 1] == inner.0[k]);
                } else {
                    let k = choose|k: int| 0 <= k < rest.0.len() && (#[trigger] rest.0[k]).0 == i;
                    assert(out[k + 1 + a] == rest.0[k]);
                }
            }
        }
    }
}

proof fn lemma_unvisited(v: Seq<bool>, n: nat)
    requires
        n <= v.len(),
        n <= usize::MAX,
    ensures
        forall|k: int| 0 <= k < unvisited(v, n).len() ==> (#[trigger] unvisited(v, n)[k]).0 < n && !v[unvisited(v, n)[k].0 as int],
        forall|k1: int, k2: int| 0 <= k1 < k2 < unvisited(v, n).len() ==> (#[trigger] unvisited(v, n)[k1]).0 != (#[trigger] unvisited(v, n)[k2]).0,
        forall|i: int| 0 <= i < n && !v[i] ==> exists|k: int| 0 <= k < unvisited(v, n).len() && (#[trigger] unvisited(v, n)[k]).0 == i,
    decreases n,
{
    if n > 0 {
        lemma_unvisited(v, (n - 1) as nat);
        let r = unvisited(v, (n - 1) as nat);
        let u = unvisited(v, n);
        if !v[n - 1] {
            assert(u == r.push(((n - 1) as usize, 0nat)));
            assert forall|i: int| 0 <= i < n && !v[i] implies exists|k: int| 0 <= k < u.len() && (#[trigger] u[k]).0 == i by {
                if i == n - 1 {
                    assert(u[r.len() as int].0 == i);
                } else {
                    let k = choose|k: int| 0 <= k < r.len() && (#[trigger] r[k]).0 == i;
                    assert(u[k] == r[k]);
                }
            }
            assert forall|k1: int, k2: int| 0 <= k1 < k2 < u.len() implies (#[trigger] u[k1]).0 != (#[trigger] u[k2]).0 by {
                if k2 == r.len() {
                    assert(u[k1] == r[k1]);
                } else {
                    assert(u[k1] == r[k1] && u[k2] == r[k2]);
                }
            }
            assert forall|k: int| 0 <= k < u.len() implies (#[trigger] u[k]).0 < n && !v[u[k].0 as int] by {
                if k < r.len() {
                    assert(u[k] == r[k]);
                }
            }
        }
    }
}

/// Some entry of `w` is at position `i`.
pub open spec fn lists_position(w: Seq<(usize, nat)>, i: int) -> bool {
    exists|k: int| 0 <= k < w.len() && (#[trigger] w[k]).0 == i
}

/// The waterfall shows every span of the trace exactly once: its entries
/// are positions of spans, no position occurs twice, and every position
/// occurs.
pub proof fn lemma_waterfall_shows_each_span_once(spans: Seq<SpanView>)
    requires
        spans.len() <= usize::MAX,
    ensures
        forall|k: int| 0 <= k < waterfall(spans).len() ==> (#[trigger] waterfall(spans)[k]).0 < spans.len(),
        forall|k1: int, k2: int| 0 <= k1 < k2 < waterfall(spans).len() ==> (#[trigger] waterfall(spans)[k1]).0 != (#[trigger] waterfall(spans)[k2]).0,
        forall|i: int| 0 <= i < spans.len() ==> #[trigger] lists_position(waterfall(spans), i),
{
    let n = spans.len();
    let v0 = Seq::new(n, |i: int| false);
    let roots = children(spans, None);
    lemma_children_in_range(spans, None);
    lemma_walk_grows(spans, roots, 0, v0, n);
    lemma_walk_emits(spans, roots, 0, v0, n);
    let w = walk(spans, roots, 0, v0, n);
    lemma_unvisited(w.1, n);
    let u = unvisited(w.1, n);
    let all = w.0 + u;
    assert(all == waterfall(spans));
    let a = w.0.len();
    assert forall|k: int| 0 <= k < all.len() implies (#[trigger] all[k]).0 < n by {
        if k < a {
            assert(all[k] == w.0[k]);
        } else {
            assert(all[k] == u[k - a]);
        }
    }
    assert forall|k1: int, k2: int| 0 <= k1 < k2 < all.len() implies (#[trigger] all[k1]).0 != (#[trigger] all[k2]).0 by {
        if k2 < a {
            assert(all[k1] == w.0[k1] && all[k2] == w.0[k2]);
        } else if k1 < a {
            assert(all[k1] == w.0[k1] && all[k2] == u[k2 - a]);
        } else {
            assert(all[k1] == u[k1 - a] && all[k2] == u[k2 - a]);
        }
    }
    assert forall|i: int| 0 <= i < n implies #[trigger] lists_position(all, i) by {
        if w.1[i] {
            assert(!v0[i]);
            let k = choose|k: int| 0 <= k < w.0.len() && (#[trigger] w.0[k]).0 == i;
            assert(all[k] == w.0[k]);
        } else {
            let k = choose|k: int| 0 <= k < u.len() && (#[trigger] u[k]).0 == i;
            assert(all[k + a] == u[k]);
        }
    }
}

/// Each entry of `out` is at `depth` or deeper; one at `depth` is a child of
/// `parent`; a deeper one is a child of an earlier entry one level up.
pub open spec fn nested_under(spans: Seq<SpanView>, out: Seq<(usize, nat)>, depth: nat, parent: Option<Seq<char>>) -> bool {
    forall|k: int| 0 <= k < out.len() ==> {
        &&& (#[trigger] out[k]).1 >= depth
        &&& out[k].1 == depth ==> spans[out[k].0 as int].parent_span_id == parent
        &&& out[k].1 > depth ==> exists|j: int| 0 <= j < k && #[trigger] out[j].1 + 1 == out[k].1
            && spans[out[k].0 as int].parent_span_id == Some(spans[out[j].0 as int].span_id)
    }
}

proof fn lemma_positions_parent(spans: Seq<SpanView>, parent: Option<Seq<char>>, n: nat)
    requires
        n <= spans.len(),
        n <= usize::MAX,
    ensures
        forall|k: int| 0 <= k < positions_with_parent(spans, parent, n).len() ==> spans[(#[trigger] positions_with_parent(spans, parent, n)[k]) as int].parent_span_id == parent,
    decreases n,
{
    if n > 0 {
        lemma_positions_parent(spans, parent, (n - 1) as nat);
        let r = positions_with_parent(spans, parent, (n - 1) as nat);
        let q = positions_with_parent(spans, parent, n);
        assert forall|k: int| 0 <= k < q.len() implies spans[(#[trigger] q[k]) as int].parent_span_id == parent by {
            if k < r.len() {
                assert(q[k] == r[k]);
            } else {
                assert(q[k] == (n - 1) as usize);
                assert(((n - 1) as usize) as int == n - 1);
            }
        }
    }
}

/// The children of `parent` have `parent` as their parent.
proof fn lemma_children_parent(spans: Seq<SpanView>, parent: Option<Seq<char>>)
    requires
        spans.len() <= usize::MAX,
    ensures
        forall|k: int| 0 <= k < children(spans, parent).len() ==> spans[(#[trigger] children(spans, parent)[k]) as int].parent_span_id == parent,
{
    let p = positions_with_parent(spans, parent, spans.len());
    lemma_positions_parent(spans, parent, spans.len());
    lemma_sort_by_members(p, key_order(start_keys(spans), false));
    let c = children(spans, parent);
    assert forall|k: int| 0 <= k < c.len() implies spans[(#[trigger] c[k]) as int].parent_span_id == parent by {
        assert(p.contains(c[k]));
        let x = choose|x: int| 0 <= x < p.len() && p[x] == c[k];
    }
}

proof fn lemma_walk_nested(
    spans: Seq<SpanView>,
    list: Seq<usize>,
    depth: nat,
    visited: Seq<bool>,
    fuel: nat,
    parent: Option<Seq<char>>,
)
    requires
        spans.len() <= usize::MAX,
        forall|k: int| 0 <= k < list.len() ==> spans[(#[trigger] list[k]) as int].parent_span_id == parent,
    ensures
        nested_under(spans, walk(spans, list, depth, visited, fuel).0, depth, parent),
    decreases fuel, list.len(),
{
    if fuel == 0 || list.len() == 0 {
    } else {
        let s = list[0];
        let d = list.drop_first();
        assert forall|k: int| 0 <= k < d.len() implies spans[(#[trigger] d[k]) as int].parent_span_id == parent by {
            assert(d[k] == list[k + 1]);
        }
        if visited[s as int] {
            lemma_walk_nested(spans, d, depth, visited, fuel, parent);
        } else {
            let id = spans[s as int].span_id;
            let kids = children(spans, Some(id));
            let v1 = visited.update(s as int, true);
            lemma_children_parent(spans, Some(id));
            lemma_walk_nested(spans, kids, depth + 1, v1, (fuel - 1) as nat, Some(id));
            let inner = walk(spans, kids, depth + 1, v1, (fuel - 1) as nat);
            lemma_walk_nested(spans, d, depth, inner.1, fuel, parent);
            let rest = walk(spans, d, depth, inner.1, fuel);
            let out = seq![(s, depth)] + inner.0 + rest.0;
            assert(walk(spans, list, depth, visited, fuel).0 == out);
            let a = inner.0.len() as int;
            assert forall|k: int| 0 <= k < out.len() implies {
                &&& (#[trigger] out[k]).1 >= depth
                &&& out[k].1 == depth ==> spans[out[k].0 as int].parent_span_id == parent
                &&& out[k].1 > depth ==> exists|j: int| 0 <= j < k && #[trigger] out[j].1 + 1 == out[k].1
                    && spans[out[k].0 as int].parent_span_id == Some(spans[out[j].0 as int].span_id)
            } by {
                if k == 0 {
                    assert(out[0] == (s, depth));
                    assert(list[0] == s);
                } else if k <= a {
                    let e = inner.0[k - 1];
                    assert(out[k] == e);
                    if e.1 == depth + 1 {
                        assert(out[0].1 + 1 == out[k].1);
                    } else {
                        let j = choose|j: int| 0 <= j < k - 1 && #[trigger] inner.0[j].1 + 1 == inner.0[k - 1].1
                            && spans[inner.0[k - 1].0 as int].parent_span_id == Some(spans[inner.0[j].0 as int].span_id);
                        assert(out[j + 1] == inner.0[j]);
                    }
                } else {
                    let e = rest.0[k - 1 - a];
                    assert(out[k] == e);
                    if e.1 > depth {
                        let j = choose|j: int| 0 <= j < k - 1 - a && #[trigger] rest.0[j].1 + 1 == rest.0[k - 1 - a].1
                            && spans[rest.0[k - 1 - a].0 as int].parent_span_id == Some(spans[rest.0[j].0 as int].span_id);
                        assert(out[j + 1 + a] == rest.0[j]);
                    }
                }
            }
        }
    }
}

/// The waterfall nests spans under their parents: a row at depth 0 that
/// the walk from the roots reached is a span without a parent; a deeper row
/// shows a child of an earlier row one level up.
pub proof fn lemma_waterfall_nests_children(spans: Seq<SpanView>)
    requires
        spans.len() <= usize::MAX,
    ensures
        forall|k: int| 0 <= k < waterfall(spans).len() && (#[trigger] waterfall(spans)[k]).1 > 0 ==>
            exists|j: int| 0 <= j < k && #[trigger] waterfall(spans)[j].1 + 1 == waterfall(spans)[k].1
                && spans[waterfall(spans)[k].0 as int].parent_span_id == Some(spans[waterfall(spans)[j].0 as int].span_id),
{
    let n = spans.len();
    let v0 = Seq::new(n, |i: int| false);
    let roots = children(spans, None);
    lemma_children_parent(spans, None);
    lemma_walk_nested(spans, roots, 0, v0, n, None);
    let w = walk(spans, roots, 0, v0, n);
    let u = unvisited(w.1, n);
    lemma_unvisited_depth(w.1, n);
    let all = w.0 + u;
    assert(all == waterfall(spans));
    let a = w.0.len() as int;
    assert forall|k: int| 0 <= k < all.len() && (#[trigger] all[k]).1 > 0 implies
        exists|j: int| 0 <= j < k && #[trigger] all[j].1 + 1 == all[k].1
            && spans[all[k].0 as int].parent_span_id == Some(spans[all[j].0 as int].span_id) by {
        if k < a {
            assert(all[k] == w.0[k]);
            let j = choose|j: int| 0 <= j < k && #[trigger] w.0[j].1 + 1 == w.0[k].1
                && spans[w.0[k].0 as int].parent_span_id == Some(spans[w.0[j].0 as int].span_id);
            assert(all[j] == w.0[j]);
        } else {
            assert(all[k] == u[k - a]);
        }
    }
}

proof fn lemma_unvisited_depth(v: Seq<bool>, n: nat)
    ensures
        forall|k: int| 0 <= k < unvisited(v, n).len() ==> (#[trigger] unvisited(v, n)[k]).1 == 0,
    decreases n,
{
    if n > 0 {
        lemma_unvisited_depth(v, (n - 1) as nat);
        let r = unvisited(v, (n - 1) as nat);
        let q = unvisited(v, n);
        assert forall|k: int| 0 <= k < q.len() implies (#[trigger] q[k]).1 == 0 by {
            if k < r.len() {
                assert(q[k] == r[k]);
            }
        }
    }
}

} // verus!
