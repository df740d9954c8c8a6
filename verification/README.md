# trace_top

A local OpenTelemetry trace receiver and terminal viewer. The library in
`src/` holds the logic, verified with Verus:

- `types`: spans as received (`RawSpan`), normalized spans, and `Trace`,
  which groups the spans of one trace id (distinct span ids, a root once
  one arrives, the latest span time).
- `store`: the in-memory `Store` of traces and the trace list and trace
  detail snapshots it serves.
- `waterfall`: the tree order in which a trace's spans are shown, proved to
  show every span exactly once.
- `api`: span statistics, the span list and report, and the trace view of
  the query API.
- `app`, `keymap`: the viewer's state, how each action changes it
  (selections, the per-screen search and the trace detail's span filter),
  and the action of each key, with a search line mode while text is typed.
- `sorting`, `text`: stable insertion sort and text helpers they share.

`app/` is the program around it: the OTLP/gRPC receiver, the HTTP API,
the terminal loop and its drawing.
