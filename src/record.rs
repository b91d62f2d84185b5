//! Raw span data as recorded on a producer thread, and the finished records
//! handed to a reporter.
use vstd::prelude::*;

use crate::id::SpanId;
use crate::id::TraceId;

verus! {

/// Key-value properties, in the order they were added.
pub type Properties = Vec<(String, String)>;

/// What a raw record stands for.
#[derive(Clone, Copy, Debug, PartialEq, Eq, Structural)]
pub enum RawKind {
    Span,
    Event,
    Properties,
}

/// A span, event or property update before global ids are resolved.
///
/// Instants are nanoseconds since the Unix epoch; an `end_instant` of zero
/// marks a span that was still open when its fragment was collected.
#[derive(Debug)]
pub struct RawSpan {
    pub id: SpanId,
    pub parent_id: Option<SpanId>,
    pub begin_instant: u64,
    pub name: String,
    pub properties: Properties,
    pub raw_kind: RawKind,
    pub end_instant: u64,
}

/// One collected fragment: raw spans in recording order, and the instant
/// used as the end of spans that were still open.
#[derive(Debug)]
pub struct LocalSpansInner {
    pub spans: Vec<RawSpan>,
    pub end_time: u64,
}

/// A fragment as it travels to the aggregator.
#[derive(Debug)]
pub enum SpanSet {
    Span(RawSpan),
    LocalSpansInner(LocalSpansInner),
    SharedLocalSpans(std::sync::Arc<LocalSpansInner>),
}

/// A finished event, attached to the span it happened in.
#[derive(Debug, Clone, PartialEq)]
pub struct EventRecord {
    pub name: String,
    pub timestamp_unix_ns: u64,
    pub properties: Properties,
}

/// A finished span, with resolved ids, as handed to a reporter.
#[derive(Debug, Clone, PartialEq)]
pub struct SpanRecord {
    pub trace_id: TraceId,
    pub span_id: SpanId,
    pub parent_id: SpanId,
    pub begin_time_unix_ns: u64,
    pub duration_ns: u64,
    pub name: String,
    pub properties: Properties,
    pub events: Vec<EventRecord>,
}

/// Identifies, for one fragment, the trace aggregation it belongs to and the
/// span it attaches under.
#[derive(Debug, Clone, Copy, PartialEq, Eq, Structural)]
pub struct CollectTokenItem {
    pub trace_id: TraceId,
    pub parent_id: SpanId,
    pub collect_id: usize,
    pub is_root: bool,
    pub is_sampled: bool,
}

/// The attachments of one fragment; more than one item means fan-out.
pub type CollectToken = Vec<CollectTokenItem>;

/// The mathematical value of an [`EventRecord`].
pub struct EventRecordView {
    pub name: String,
    pub timestamp_unix_ns: u64,
    pub properties: Seq<(String, String)>,
}

/// The mathematical value of a [`SpanRecord`].
pub struct SpanRecordView {
    pub trace_id: TraceId,
    pub span_id: SpanId,
    pub parent_id: SpanId,
    pub begin_time_unix_ns: u64,
    pub duration_ns: u64,
    pub name: String,
    pub properties: Seq<(String, String)>,
    pub events: Seq<EventRecordView>,
}

impl View for EventRecord {
    type V = EventRecordView;

    open spec fn view(&self) -> EventRecordView {
        EventRecordView {
            name: self.name,
            timestamp_unix_ns: self.timestamp_unix_ns,
            properties: self.properties@,
        }
    }
}

impl View for SpanRecord {
    type V = SpanRecordView;

    open spec fn view(&self) -> SpanRecordView {
        SpanRecordView {
            trace_id: self.trace_id,
            span_id: self.span_id,
            parent_id: self.parent_id,
            begin_time_unix_ns: self.begin_time_unix_ns,
            duration_ns: self.duration_ns,
            name: self.name,
            properties: self.properties@,
            events: self.events@.map_values(|e: EventRecord| e@),
        }
    }
}

/// The views of a sequence of span records.
pub open spec fn records_view(s: Seq<SpanRecord>) -> Seq<SpanRecordView> {
    s.map_values(|r: SpanRecord| r@)
}

/// `a - b`, or zero when `b` exceeds `a`.
pub open spec fn saturating_diff(a: u64, b: u64) -> u64 {
    if a >= b {
        (a - b) as u64
    } else {
        0
    }
}

/// A copy of `p` with the same keys and values in the same order.
pub fn clone_properties(p: &Properties) -> (r: Properties)
    ensures
        r@ == p@,
{
    let mut r: Properties = Vec::new();
    let mut i: usize = 0;
    while i < p.len()
        invariant
            i <= p@.len(),
            r@ == p@.subrange(0, i as int),
        decreases p@.len() - i,
    {
        let kv = &p[i];
        r.push((kv.0.clone(), kv.1.clone()));
        assert(r@ =~= p@.subrange(0, i + 1));
        i = i + 1;
    }
    assert(r@ =~= p@);
    r
}

impl RawSpan {
    /// A raw record that starts at `begin_instant` and is not ended yet.
    pub fn begin_with(
        id: SpanId,
        parent_id: Option<SpanId>,
        begin_instant: u64,
        name: String,
        raw_kind: RawKind,
    ) -> (r: RawSpan)
        ensures
            r.id == id,
            r.parent_id == parent_id,
            r.begin_instant == begin_instant,
            r.name == name,
            r.properties@ == Seq::<(String, String)>::empty(),
            r.raw_kind == raw_kind,
            r.end_instant == 0,
    {
        RawSpan {
            id,
            parent_id,
            begin_instant,
            name,
            properties: Vec::new(),
            raw_kind,
            end_instant: 0,
        }
    }

    /// Stamps the end instant.
    pub fn end_with(&mut self, end_instant: u64)
        ensures
            *final(self) == (RawSpan { end_instant, ..*old(self) }),
    {
        self.end_instant = end_instant;
    }

    /// A copy with equal fields.
    pub fn duplicate(&self) -> (r: RawSpan)
        ensures
            r.id == self.id,
            r.parent_id == self.parent_id,
            r.begin_instant == self.begin_instant,
            r.name == self.name,
            r.properties@ == self.properties@,
            r.raw_kind == self.raw_kind,
            r.end_instant == self.end_instant,
    {
        RawSpan {
            id: self.id,
            parent_id: self.parent_id,
            begin_instant: self.begin_instant,
            name: self.name.clone(),
            properties: clone_properties(&self.properties),
            raw_kind: self.raw_kind,
            end_instant: self.end_instant,
        }
    }
}

} // verus!
