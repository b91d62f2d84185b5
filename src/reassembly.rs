//! Turning collected fragments into finished span records.
//!
//! Reassembly runs in two passes over the fragments of one trace. The first
//! emits a record for every raw span and sets events and property updates
//! aside, keyed by the id of the span they belong to ("danglings"). The second
//! attaches each pending list to the first record with that id. Because the
//! second pass runs after all fragments are walked, the order in which the
//! fragments arrived does not matter.
use std::collections::HashMap;
use std::sync::Arc;

use vstd::prelude::*;

use crate::id::SpanContext;
use crate::id::SpanId;
use crate::id::TraceId;
use crate::record::clone_properties;
use crate::record::records_view;
use crate::record::saturating_diff;
use crate::record::EventRecord;
use crate::record::EventRecordView;
use crate::record::LocalSpansInner;
use crate::record::Properties;
use crate::record::RawKind;
use crate::record::RawSpan;
use crate::record::SpanRecord;
use crate::record::SpanRecordView;
use crate::record::SpanSet;

verus! {

broadcast use vstd::std_specs::hash::group_hash_axioms;

/// An event or property update waiting for the record of its span.
pub enum DanglingItem {
    Event(EventRecord),
    Properties(Properties),
}

/// The mathematical value of a [`DanglingItem`].
pub enum DanglingView {
    Event(EventRecordView),
    Properties(Seq<(String, String)>),
}

impl View for DanglingItem {
    type V = DanglingView;

    open spec fn view(&self) -> DanglingView {
        match self {
            DanglingItem::Event(e) => DanglingView::Event(e@),
            DanglingItem::Properties(p) => DanglingView::Properties(p@),
        }
    }
}

/// Pending items, keyed by the id of the span they belong to.
pub type Danglings = HashMap<u64, Vec<DanglingItem>>;

/// The pending map of the model: span id to the items waiting for it, in order.
pub type DanglingMap = Map<u64, Seq<DanglingView>>;

/// The views of a sequence of pending items.
pub open spec fn items_view(v: Seq<DanglingItem>) -> Seq<DanglingView> {
    v.map_values(|x: DanglingItem| x@)
}

/// The model of a pending map.
pub open spec fn danglings_view(m: Map<u64, Vec<DanglingItem>>) -> DanglingMap {
    m.map_values(|v: Vec<DanglingItem>| items_view(v@))
}

/// A fragment tagged with the trace and the parent span it attaches under;
/// `Shared` when the same fragment also goes to other traces.
pub enum SpanCollection {
    Owned { spans: SpanSet, trace_id: TraceId, parent_id: SpanId },
    Shared { spans: Arc<SpanSet>, trace_id: TraceId, parent_id: SpanId },
}

impl SpanCollection {
    /// The fragment.
    pub open spec fn spec_spans(&self) -> SpanSet {
        match self {
            SpanCollection::Owned { spans, .. } => *spans,
            SpanCollection::Shared { spans, .. } => **spans,
        }
    }

    /// The trace the fragment goes to.
    pub open spec fn spec_trace_id(&self) -> TraceId {
        match self {
            SpanCollection::Owned { trace_id, .. } => *trace_id,
            SpanCollection::Shared { trace_id, .. } => *trace_id,
        }
    }

    /// The span the fragment's top-level spans attach under.
    pub open spec fn spec_parent_id(&self) -> SpanId {
        match self {
            SpanCollection::Owned { parent_id, .. } => *parent_id,
            SpanCollection::Shared { parent_id, .. } => *parent_id,
        }
    }

    /// The trace the fragment goes to.
    pub fn trace_id(&self) -> (r: TraceId)
        ensures
            r == self.spec_trace_id(),
    {
        match self {
            SpanCollection::Owned { trace_id, .. } => *trace_id,
            SpanCollection::Shared { trace_id, .. } => *trace_id,
        }
    }
}

/// The model of a reassembly in progress: records emitted, items pending.
pub type Assembly = (Seq<SpanRecordView>, DanglingMap);

/// `d` with `x` appended to the list of `key`.
pub open spec fn push_dangling(d: DanglingMap, key: u64, x: DanglingView) -> DanglingMap {
    d.insert(
        key,
        if d.contains_key(key) {
            d[key].push(x)
        } else {
            seq![x]
        },
    )
}

/// The record of a raw span of kind `Span`, under the given trace and parent,
/// ending at `end` (its duration is zero if `end` comes before its start).
pub open spec fn span_record_of(raw: RawSpan, trace_id: TraceId, parent_id: SpanId, end: u64)
    -> SpanRecordView {
    SpanRecordView {
        trace_id,
        span_id: raw.id,
        parent_id,
        begin_time_unix_ns: raw.begin_instant,
        duration_ns: saturating_diff(end, raw.begin_instant),
        name: raw.name,
        properties: raw.properties@,
        events: seq![],
    }
}

/// The event record of a raw span of kind `Event`.
pub open spec fn event_record_of(raw: RawSpan) -> EventRecordView {
    EventRecordView {
        name: raw.name,
        timestamp_unix_ns: raw.begin_instant,
        properties: raw.properties@,
    }
}

/// One raw span processed: a span becomes a record; an event or a property
/// update is set aside under `parent_id`.
pub open spec fn amend_one(a: Assembly, raw: RawSpan, trace_id: TraceId, parent_id: SpanId, end: u64)
    -> Assembly {
    match raw.raw_kind {
        RawKind::Span => (a.0.push(span_record_of(raw, trace_id, parent_id, end)), a.1),
        RawKind::Event => (
            a.0,
            push_dangling(a.1, parent_id.0, DanglingView::Event(event_record_of(raw))),
        ),
        RawKind::Properties => (
            a.0,
            push_dangling(a.1, parent_id.0, DanglingView::Properties(raw.properties@)),
        ),
    }
}

/// The parent of a raw span in a fragment: its own, or the attachment parent.
pub open spec fn resolved_parent(raw: RawSpan, parent_id: SpanId) -> SpanId {
    match raw.parent_id {
        Some(p) => p,
        None => parent_id,
    }
}

/// The end of a raw span in a fragment: its own, or the fragment's end time
/// when it was still open.
pub open spec fn resolved_end(raw: RawSpan, end_time: u64) -> u64 {
    if raw.end_instant == 0 {
        end_time
    } else {
        raw.end_instant
    }
}

/// The raw spans of a fragment processed in order.
pub open spec fn amend_local(
    a: Assembly,
    spans: Seq<RawSpan>,
    end_time: u64,
    trace_id: TraceId,
    parent_id: SpanId,
) -> Assembly
    decreases spans.len(),
{
    if spans.len() == 0 {
        a
    } else {
        let raw = spans.last();
        amend_one(
            amend_local(a, spans.drop_last(), end_time, trace_id, parent_id),
            raw,
            trace_id,
            resolved_parent(raw, parent_id),
            resolved_end(raw, end_time),
        )
    }
}

/// A fragment processed. A lone span attaches directly under `parent_id` and
/// keeps its own end instant.
pub open spec fn amend_set(a: Assembly, set: SpanSet, trace_id: TraceId, parent_id: SpanId)
    -> Assembly {
    match set {
        SpanSet::Span(raw) => amend_one(a, raw, trace_id, parent_id, raw.end_instant),
        SpanSet::LocalSpansInner(l) => amend_local(a, l.spans@, l.end_time, trace_id, parent_id),
        SpanSet::SharedLocalSpans(l) => amend_local(a, l.spans@, l.end_time, trace_id, parent_id),
    }
}

/// A fragment with the trace and parent it attaches under.
pub type CollView = (SpanSet, TraceId, SpanId);

/// The model of a [`SpanCollection`]: owned or shared, it is the same fragment.
pub open spec fn coll_view(c: SpanCollection) -> CollView {
    (c.spec_spans(), c.spec_trace_id(), c.spec_parent_id())
}

/// The models of a sequence of collections.
pub open spec fn colls_view(s: Seq<SpanCollection>) -> Seq<CollView> {
    s.map_values(|c: SpanCollection| coll_view(c))
}

/// Fragments processed in order.
pub open spec fn amend_collections(a: Assembly, colls: Seq<CollView>) -> Assembly
    decreases colls.len(),
{
    if colls.len() == 0 {
        a
    } else {
        let c = colls.last();
        amend_set(amend_collections(a, colls.drop_last()), c.0, c.1, c.2)
    }
}

/// A record with pending items attached in order: events are appended to its
/// events, property updates to its properties.
pub open spec fn mount_record(rec: SpanRecordView, items: Seq<DanglingView>) -> SpanRecordView
    decreases items.len(),
{
    if items.len() == 0 {
        rec
    } else {
        let r = mount_record(rec, items.drop_last());
        match items.last() {
            DanglingView::Event(e) => SpanRecordView { events: r.events.push(e), ..r },
            DanglingView::Properties(p) => SpanRecordView { properties: r.properties + p, ..r },
        }
    }
}

/// Records walked in order; each takes (and removes) the items pending under
/// its own id.
pub open spec fn mount_seq(recs: Seq<SpanRecordView>, d: DanglingMap) -> Assembly
    decreases recs.len(),
{
    if recs.len() == 0 {
        (seq![], d)
    } else {
        let prev = mount_seq(recs.drop_last(), d);
        let x = recs.last();
        if prev.1.contains_key(x.span_id.0) {
            (prev.0.push(mount_record(x, prev.1[x.span_id.0])), prev.1.remove(x.span_id.0))
        } else {
            (prev.0.push(x), prev.1)
        }
    }
}

/// Both passes over the fragments of one trace, starting from the items that
/// were pending before: the finished records, and what is still pending.
pub open spec fn postprocess(colls: Seq<CollView>, d: DanglingMap) -> Assembly {
    let a = amend_collections((seq![], d), colls);
    mount_seq(a.0, a.1)
}

/// Appends `item` to the list of `key`.
fn push_dangling_item(danglings: &mut Danglings, key: u64, item: DanglingItem)
    ensures
        danglings_view(final(danglings)@) == push_dangling(
            danglings_view(old(danglings)@),
            key,
            item@,
        ),
{
    let ghost d0 = danglings_view(danglings@);
    let ghost x = item@;
    match danglings.remove(&key) {
        Some(mut v) => {
            let ghost v0 = v@;
            v.push(item);
            assert(items_view(v@) =~= items_view(v0).push(x));
            danglings.insert(key, v);
        },
        None => {
            let mut v: Vec<DanglingItem> = Vec::new();
            v.push(item);
            assert(items_view(v@) =~= seq![x]);
            danglings.insert(key, v);
        },
    }
    assert(danglings_view(danglings@) =~= push_dangling(d0, key, x));
}

/// Processes one raw span under the given trace, parent and end instant.
fn amend_raw(
    raw: &RawSpan,
    trace_id: TraceId,
    parent_id: SpanId,
    end: u64,
    records: &mut Vec<SpanRecord>,
    danglings: &mut Danglings,
)
    ensures
        (records_view(final(records)@), danglings_view(final(danglings)@)) == amend_one(
            (records_view(old(records)@), danglings_view(old(danglings)@)),
            *raw,
            trace_id,
            parent_id,
            end,
        ),
{
    let ghost r0 = records@;
    match raw.raw_kind {
        RawKind::Span => {
            let duration_ns = if end >= raw.begin_instant {
                end - raw.begin_instant
            } else {
                0
            };
            let rec = SpanRecord {
                trace_id,
                span_id: raw.id,
                parent_id,
                begin_time_unix_ns: raw.begin_instant,
                duration_ns,
                name: raw.name.clone(),
                properties: clone_properties(&raw.properties),
                events: Vec::new(),
            };
            assert(rec@ == span_record_of(*raw, trace_id, parent_id, end)) by {
                assert(rec.events@.map_values(|e: EventRecord| e@) =~= seq![]);
            }
            records.push(rec);
            assert(records_view(records@) =~= records_view(r0).push(rec@));
        },
        RawKind::Event => {
            let event = EventRecord {
                name: raw.name.clone(),
                timestamp_unix_ns: raw.begin_instant,
                properties: clone_properties(&raw.properties),
            };
            push_dangling_item(danglings, parent_id.0, DanglingItem::Event(event));
        },
        RawKind::Properties => {
            push_dangling_item(
                danglings,
                parent_id.0,
                DanglingItem::Properties(clone_properties(&raw.properties)),
            );
        },
    }
}

/// Processes a lone span: it attaches under `parent_id` and keeps its own end.
fn amend_span(
    raw: &RawSpan,
    trace_id: TraceId,
    parent_id: SpanId,
    records: &mut Vec<SpanRecord>,
    danglings: &mut Danglings,
)
    ensures
        (records_view(final(records)@), danglings_view(final(danglings)@)) == amend_set(
            (records_view(old(records)@), danglings_view(old(danglings)@)),
            SpanSet::Span(*raw),
            trace_id,
            parent_id,
        ),
{
    amend_raw(raw, trace_id, parent_id, raw.end_instant, records, danglings);
}

/// Processes the raw spans of a fragment in order.
fn amend_local_span(
    local_spans: &LocalSpansInner,
    trace_id: TraceId,
    parent_id: SpanId,
    records: &mut Vec<SpanRecord>,
    danglings: &mut Danglings,
)
    ensures
        (records_view(final(records)@), danglings_view(final(danglings)@)) == amend_local(
            (records_view(old(records)@), danglings_view(old(danglings)@)),
            local_spans.spans@,
            local_spans.end_time,
            trace_id,
            parent_id,
        ),
{
    let ghost a0 = (records_view(records@), danglings_view(danglings@));
    let spans = &local_spans.spans;
    let mut i: usize = 0;
    while i < spans.len()
        invariant
            i <= spans@.len(),
            (records_view(records@), danglings_view(danglings@)) == amend_local(
                a0,
                spans@.subrange(0, i as int),
                local_spans.end_time,
                trace_id,
                parent_id,
            ),
        decreases spans@.len() - i,
    {
        let raw = &spans[i];
        let parent = match raw.parent_id {
            Some(p) => p,
            None => parent_id,
        };
        let end = if raw.end_instant == 0 {
            local_spans.end_time
        } else {
            raw.end_instant
        };
        amend_raw(raw, trace_id, parent, end, records, danglings);
        assert(spans@.subrange(0, i + 1).drop_last() =~= spans@.subrange(0, i as int));
        i = i + 1;
    }
    assert(spans@.subrange(0, i as int) =~= spans@);
}

/// Processes one fragment of any shape.
fn amend_span_set(
    set: &SpanSet,
    trace_id: TraceId,
    parent_id: SpanId,
    records: &mut Vec<SpanRecord>,
    danglings: &mut Danglings,
)
    ensures
        (records_view(final(records)@), danglings_view(final(danglings)@)) == amend_set(
            (records_view(old(records)@), danglings_view(old(danglings)@)),
            *set,
            trace_id,
            parent_id,
        ),
{
    match set {
        SpanSet::Span(raw) => amend_span(raw, trace_id, parent_id, records, danglings),
        SpanSet::LocalSpansInner(l) => amend_local_span(l, trace_id, parent_id, records, danglings),
        SpanSet::SharedLocalSpans(l) => amend_local_span(
            &**l,
            trace_id,
            parent_id,
            records,
            danglings,
        ),
    }
}

/// A copy of an event record with equal fields.
fn clone_event(e: &EventRecord) -> (r: EventRecord)
    ensures
        r@ == e@,
{
    EventRecord {
        name: e.name.clone(),
        timestamp_unix_ns: e.timestamp_unix_ns,
        properties: clone_properties(&e.properties),
    }
}

/// Attaches the pending items to a record, in order.
fn mount_items(rec: &mut SpanRecord, items: &Vec<DanglingItem>)
    ensures
        final(rec)@ == mount_record(old(rec)@, items_view(items@)),
{
    let ghost r0 = rec@;
    let mut i: usize = 0;
    while i < items.len()
        invariant
            i <= items@.len(),
            rec@ == mount_record(r0, items_view(items@.subrange(0, i as int))),
        decreases items@.len() - i,
    {
        let ghost before = rec@;
        assert(items_view(items@.subrange(0, i + 1)).drop_last() =~= items_view(
            items@.subrange(0, i as int),
        ));
        match &items[i] {
            DanglingItem::Event(e) => {
                let ghost evs = rec.events@;
                rec.events.push(clone_event(e));
                assert(rec.events@.map_values(|x: EventRecord| x@) =~= evs.map_values(
                    |x: EventRecord| x@,
                ).push(e@));
            },
            DanglingItem::Properties(p) => {
                let mut extra = clone_properties(p);
                rec.properties.append(&mut extra);
            },
        }
        i = i + 1;
    }
    assert(items@.subrange(0, i as int) =~= items@);
}

/// A record with no content, used as a stand-in while a record is updated.
fn placeholder_record() -> (r: SpanRecord) {
    SpanRecord {
        trace_id: TraceId(0),
        span_id: SpanId(0),
        parent_id: SpanId(0),
        begin_time_unix_ns: 0,
        duration_ns: 0,
        name: String::new(),
        properties: Vec::new(),
        events: Vec::new(),
    }
}

/// Attaches pending items to the records that own them: each record, in
/// order, takes and removes the items pending under its own id.
pub fn mount_danglings(records: &mut Vec<SpanRecord>, danglings: &mut Danglings)
    ensures
        (records_view(final(records)@), danglings_view(final(danglings)@)) == mount_seq(
            records_view(old(records)@),
            danglings_view(old(danglings)@),
        ),
{
    let ghost orig = records_view(records@);
    let ghost d0 = danglings_view(danglings@);
    let n = records.len();
    let mut i: usize = 0;
    while i < n
        invariant
            i <= n,
            n == records@.len(),
            orig.len() == n,
            records_view(records@).subrange(i as int, n as int) == orig.subrange(
                i as int,
                n as int,
            ),
            (records_view(records@).subrange(0, i as int), danglings_view(danglings@))
                == mount_seq(orig.subrange(0, i as int), d0),
        decreases n - i,
    {
        let ghost before = records_view(records@);
        let ghost prev = mount_seq(orig.subrange(0, i as int), d0);
        assert(orig.subrange(0, i + 1).drop_last() =~= orig.subrange(0, i as int));
        assert(orig.subrange(0, i + 1).last() == orig[i as int]);
        assert(before[i as int] == orig[i as int]) by {
            assert(before.subrange(i as int, n as int)[0] == orig.subrange(i as int, n as int)[0]);
        }
        let key = records[i].span_id.0;
        match danglings.remove(&key) {
            Some(items) => {
                let mut rec = placeholder_record();
                records.set_and_swap(i, &mut rec);
                mount_items(&mut rec, &items);
                records.set(i, rec);
                assert(records_view(records@) =~= before.update(i as int, rec@));
            },
            None => {},
        }
        assert(records_view(records@).subrange(0, i + 1) =~= mount_seq(
            orig.subrange(0, i + 1),
            d0,
        ).0);
        assert(danglings_view(danglings@) =~= mount_seq(orig.subrange(0, i + 1), d0).1);
        assert forall|j: int| i + 1 <= j < n implies #[trigger] records_view(records@)[j]
            == orig[j] by {
            assert(records_view(records@)[j] == before[j]);
            assert(before.subrange(i as int, n as int)[j - i] == orig.subrange(i as int, n as int)[j
                - i]);
        }
        assert(records_view(records@).subrange(i + 1, n as int) =~= orig.subrange(
            i + 1,
            n as int,
        ));
        i = i + 1;
    }
    assert(records_view(records@).subrange(0, n as int) =~= records_view(records@));
    assert(orig.subrange(0, n as int) =~= orig);
}

/// Both passes over the fragments of one trace. The finished records are
/// appended to `committed_records`; `danglings` holds what is pending before
/// and after.
pub fn postprocess_span_collection(
    span_collections: &Vec<SpanCollection>,
    committed_records: &mut Vec<SpanRecord>,
    danglings: &mut Danglings,
)
    ensures
        records_view(final(committed_records)@) == records_view(old(committed_records)@)
            + postprocess(colls_view(span_collections@), danglings_view(old(danglings)@)).0,
        danglings_view(final(danglings)@) == postprocess(
            colls_view(span_collections@),
            danglings_view(old(danglings)@),
        ).1,
{
    let ghost d0 = danglings_view(danglings@);
    let mut records: Vec<SpanRecord> = Vec::new();
    let mut i: usize = 0;
    assert(records_view(records@) =~= seq![]);
    while i < span_collections.len()
        invariant
            i <= span_collections@.len(),
            (records_view(records@), danglings_view(danglings@)) == amend_collections(
                (seq![], d0),
                colls_view(span_collections@.subrange(0, i as int)),
            ),
        decreases span_collections@.len() - i,
    {
        match &span_collections[i] {
            SpanCollection::Owned { spans, trace_id, parent_id } => {
                amend_span_set(spans, *trace_id, *parent_id, &mut records, danglings);
            },
            SpanCollection::Shared { spans, trace_id, parent_id } => {
                amend_span_set(&**spans, *trace_id, *parent_id, &mut records, danglings);
            },
        }
        assert(colls_view(span_collections@.subrange(0, i + 1)).drop_last() =~= colls_view(
            span_collections@.subrange(0, i as int),
        ));
        i = i + 1;
    }
    assert(span_collections@.subrange(0, i as int) =~= span_collections@);
    assert(colls_view(span_collections@.subrange(0, i as int)) =~= colls_view(span_collections@));
    mount_danglings(&mut records, danglings);
    let ghost c0 = committed_records@;
    let ghost added = records@;
    committed_records.append(&mut records);
    assert(records_view(committed_records@) =~= records_view(c0) + records_view(added));
}


impl LocalSpansInner {
    /// The records of this fragment alone, attached under `parent`: both
    /// passes of reassembly over the one fragment.
    pub fn to_span_records(&self, parent: SpanContext) -> (r: Vec<SpanRecord>)
        ensures
            records_view(r@) == postprocess(
                seq![(SpanSet::LocalSpansInner(*self), parent.trace_id, parent.span_id)],
                Map::empty(),
            ).0,
    {
        let mut records: Vec<SpanRecord> = Vec::new();
        let mut danglings: Danglings = HashMap::new();
        assert(records_view(records@) =~= seq![]);
        assert(danglings_view(danglings@) =~= Map::empty());
        amend_local_span(self, parent.trace_id, parent.span_id, &mut records, &mut danglings);
        let ghost c: CollView = (SpanSet::LocalSpansInner(*self), parent.trace_id, parent.span_id);
        let ghost a0: Assembly = (seq![], Map::empty());
        assert(seq![c].drop_last() =~= seq![]);
        assert(seq![c].last() == c);
        assert(amend_collections(a0, seq![c].drop_last()) == a0);
        assert(amend_collections(a0, seq![c]) == amend_local(
            a0,
            self.spans@,
            self.end_time,
            parent.trace_id,
            parent.span_id,
        ));
        mount_danglings(&mut records, &mut danglings);
        records
    }
}

/// A span's duration is its end minus its start, and zero when the end comes
/// first (a clock anomaly), never negative.
pub proof fn lemma_duration_saturates(raw: RawSpan, trace_id: TraceId, parent_id: SpanId, end: u64)
    ensures
        end >= raw.begin_instant ==> span_record_of(raw, trace_id, parent_id, end).duration_ns
            == end - raw.begin_instant,
        end < raw.begin_instant ==> span_record_of(raw, trace_id, parent_id, end).duration_ns == 0,
{
}

/// An event recorded under a span in one fragment is attached to that span's
/// record whichever of the two fragments is processed first.
pub proof fn lemma_dangling_event_attached(
    fa: LocalSpansInner,
    fb: LocalSpansInner,
    trace_id: TraceId,
    parent_id: SpanId,
)
    requires
        fa.spans@.len() == 1,
        fb.spans@.len() == 1,
        fa.spans@[0].raw_kind == RawKind::Span,
        fa.spans@[0].parent_id.is_none(),
        fb.spans@[0].raw_kind == RawKind::Event,
        fb.spans@[0].parent_id == Some(fa.spans@[0].id),
    ensures
        ({
            let span = fa.spans@[0];
            let a: CollView = (SpanSet::LocalSpansInner(fa), trace_id, parent_id);
            let b: CollView = (SpanSet::LocalSpansInner(fb), trace_id, parent_id);
            let expected = SpanRecordView {
                events: seq![event_record_of(fb.spans@[0])],
                ..span_record_of(span, trace_id, parent_id, resolved_end(span, fa.end_time))
            };
            &&& postprocess(seq![a, b], Map::empty()).0 == seq![expected]
            &&& postprocess(seq![b, a], Map::empty()).0 == seq![expected]
        }),
{
    reveal_with_fuel(amend_local, 2);
    reveal_with_fuel(amend_collections, 3);
    reveal_with_fuel(mount_record, 2);
    reveal_with_fuel(mount_seq, 2);
    let span = fa.spans@[0];
    let event = fb.spans@[0];
    let a: CollView = (SpanSet::LocalSpansInner(fa), trace_id, parent_id);
    let b: CollView = (SpanSet::LocalSpansInner(fb), trace_id, parent_id);
    let rec = span_record_of(span, trace_id, parent_id, resolved_end(span, fa.end_time));
    let ev = DanglingView::Event(event_record_of(event));
    let e: DanglingMap = Map::empty();
    let d = push_dangling(e, span.id.0, ev);
    assert(fa.spans@.drop_last() =~= seq![]);
    assert(fb.spans@.drop_last() =~= seq![]);
    assert(seq![a, b].drop_last() =~= seq![a]);
    assert(seq![a].drop_last() =~= seq![]);
    assert(seq![b, a].drop_last() =~= seq![b]);
    assert(seq![b].drop_last() =~= seq![]);
    let none: Seq<SpanRecordView> = seq![];
    let one: Assembly = (none, e);
    assert(amend_local(one, fa.spans@, fa.end_time, trace_id, parent_id) == (seq![rec], e));
    assert(amend_local(one, fb.spans@, fb.end_time, trace_id, parent_id) == (none, d));
    assert(amend_local((seq![rec], e), fb.spans@, fb.end_time, trace_id, parent_id) == (
    seq![rec], d));
    assert(amend_local((none, d), fa.spans@, fa.end_time, trace_id, parent_id) == (seq![rec], d));
    assert(amend_collections(one, seq![a, b]) == (seq![rec], d));
    assert(amend_collections(one, seq![b, a]) == (seq![rec], d));
    assert(d[span.id.0] =~= seq![ev]);
    assert(seq![ev].drop_last() =~= seq![]);
    assert(seq![rec].drop_last() =~= seq![]);
    let expected = SpanRecordView { events: seq![event_record_of(event)], ..rec };
    assert(rec.events.push(event_record_of(event)) =~= seq![event_record_of(event)]);
    assert(mount_record(rec, seq![ev]) == expected);
    assert(mount_seq(seq![rec], d).0 =~= seq![expected]);
}

/// Two records that agree on everything but their trace and parent ids.
pub open spec fn same_but_attachment(a: SpanRecordView, b: SpanRecordView) -> bool {
    SpanRecordView { trace_id: b.trace_id, parent_id: b.parent_id, ..a } == b
}

/// Two record sequences that agree pairwise on everything but trace and
/// parent ids.
pub open spec fn all_same_but_attachment(s1: Seq<SpanRecordView>, s2: Seq<SpanRecordView>) -> bool {
    s1.len() == s2.len() && forall|i: int|
        0 <= i < s1.len() ==> same_but_attachment(#[trigger] s1[i], s2[i])
}

/// Two pending maps that agree on every key but `k1` and `k2`.
pub open spec fn agree_except(d1: DanglingMap, d2: DanglingMap, k1: u64, k2: u64) -> bool {
    forall|k: u64|
        k != k1 && k != k2 ==> (#[trigger] d1.contains_key(k) == d2.contains_key(k)) && (
        d1.contains_key(k) ==> d1[k] == d2[k])
}

/// Whether no raw item of a fragment has the id `k1` or `k2`.
pub open spec fn ids_avoid(spans: Seq<RawSpan>, k1: u64, k2: u64) -> bool {
    forall|i: int| 0 <= i < spans.len() ==> (#[trigger] spans[i]).id.0 != k1 && spans[i].id.0 != k2
}

proof fn lemma_push_agree(
    r1: Seq<SpanRecordView>,
    r2: Seq<SpanRecordView>,
    x1: SpanRecordView,
    x2: SpanRecordView,
)
    requires
        all_same_but_attachment(r1, r2),
        same_but_attachment(x1, x2),
    ensures
        all_same_but_attachment(r1.push(x1), r2.push(x2)),
{
    assert forall|i: int| 0 <= i < r1.push(x1).len() implies same_but_attachment(
        #[trigger] r1.push(x1)[i],
        r2.push(x2)[i],
    ) by {
        if i < r1.len() {
            assert(r1.push(x1)[i] == r1[i]);
            assert(r2.push(x2)[i] == r2[i]);
        }
    }
}

proof fn lemma_amend_local_agree(
    a1: Assembly,
    a2: Assembly,
    spans: Seq<RawSpan>,
    end_time: u64,
    t1: TraceId,
    p1: SpanId,
    t2: TraceId,
    p2: SpanId,
)
    requires
        all_same_but_attachment(a1.0, a2.0),
        agree_except(a1.1, a2.1, p1.0, p2.0),
    ensures
        all_same_but_attachment(
            amend_local(a1, spans, end_time, t1, p1).0,
            amend_local(a2, spans, end_time, t2, p2).0,
        ),
        agree_except(
            amend_local(a1, spans, end_time, t1, p1).1,
            amend_local(a2, spans, end_time, t2, p2).1,
            p1.0,
            p2.0,
        ),
    decreases spans.len(),
{
    if spans.len() > 0 {
        lemma_amend_local_agree(a1, a2, spans.drop_last(), end_time, t1, p1, t2, p2);
        let b1 = amend_local(a1, spans.drop_last(), end_time, t1, p1);
        let b2 = amend_local(a2, spans.drop_last(), end_time, t2, p2);
        let raw = spans.last();
        lemma_amend_one_agree(b1, b2, raw, t1, resolved_parent(raw, p1), t2, resolved_parent(raw, p2),
            resolved_end(raw, end_time), p1.0, p2.0);
    }
}

proof fn lemma_amend_one_agree(
    b1: Assembly,
    b2: Assembly,
    raw: RawSpan,
    t1: TraceId,
    q1: SpanId,
    t2: TraceId,
    q2: SpanId,
    end: u64,
    k1: u64,
    k2: u64,
)
    requires
        all_same_but_attachment(b1.0, b2.0),
        agree_except(b1.1, b2.1, k1, k2),
        q1 == q2 || (q1.0 == k1 && q2.0 == k2),
    ensures
        all_same_but_attachment(amend_one(b1, raw, t1, q1, end).0, amend_one(b2, raw, t2, q2, end).0),
        agree_except(amend_one(b1, raw, t1, q1, end).1, amend_one(b2, raw, t2, q2, end).1, k1, k2),
{
    match raw.raw_kind {
        RawKind::Span => {
            lemma_push_agree(
                b1.0,
                b2.0,
                span_record_of(raw, t1, q1, end),
                span_record_of(raw, t2, q2, end),
            );
        },
        _ => {},
    }
}

proof fn lemma_mount_record_agree(x1: SpanRecordView, x2: SpanRecordView, items: Seq<DanglingView>)
    requires
        same_but_attachment(x1, x2),
    ensures
        same_but_attachment(mount_record(x1, items), mount_record(x2, items)),
        mount_record(x1, items).span_id == x1.span_id,
        mount_record(x1, items).trace_id == x1.trace_id,
        mount_record(x1, items).parent_id == x1.parent_id,
        mount_record(x2, items).trace_id == x2.trace_id,
        mount_record(x2, items).parent_id == x2.parent_id,
    decreases items.len(),
{
    if items.len() > 0 {
        lemma_mount_record_agree(x1, x2, items.drop_last());
    }
}

proof fn lemma_mount_seq_agree(
    r1: Seq<SpanRecordView>,
    r2: Seq<SpanRecordView>,
    d1: DanglingMap,
    d2: DanglingMap,
    k1: u64,
    k2: u64,
)
    requires
        all_same_but_attachment(r1, r2),
        agree_except(d1, d2, k1, k2),
        forall|i: int| 0 <= i < r1.len() ==> (#[trigger] r1[i]).span_id.0 != k1 && r1[i].span_id.0 != k2,
    ensures
        all_same_but_attachment(mount_seq(r1, d1).0, mount_seq(r2, d2).0),
        agree_except(mount_seq(r1, d1).1, mount_seq(r2, d2).1, k1, k2),
    decreases r1.len(),
{
    if r1.len() > 0 {
        let s1 = r1.drop_last();
        let s2 = r2.drop_last();
        assert forall|i: int| 0 <= i < s1.len() implies same_but_attachment(#[trigger] s1[i], s2[i]) by {
            assert(s1[i] == r1[i] && s2[i] == r2[i]);
        }
        assert forall|i: int| 0 <= i < s1.len() implies (#[trigger] s1[i]).span_id.0 != k1
            && s1[i].span_id.0 != k2 by {
            assert(s1[i] == r1[i]);
        }
        lemma_mount_seq_agree(s1, s2, d1, d2, k1, k2);
        let m1 = mount_seq(s1, d1);
        let m2 = mount_seq(s2, d2);
        let x1 = r1.last();
        let x2 = r2.last();
        assert(same_but_attachment(x1, x2));
        let k = x1.span_id.0;
        assert(x2.span_id.0 == k);
        assert(k != k1 && k != k2);
        assert(m1.1.contains_key(k) == m2.1.contains_key(k));
        if m1.1.contains_key(k) {
            lemma_mount_record_agree(x1, x2, m1.1[k]);
            lemma_push_agree(m1.0, m2.0, mount_record(x1, m1.1[k]), mount_record(x2, m2.1[k]));
            let e1 = m1.1.remove(k);
            let e2 = m2.1.remove(k);
            assert forall|j: u64| j != k1 && j != k2 implies (#[trigger] e1.contains_key(j)
                == e2.contains_key(j)) && (e1.contains_key(j) ==> e1[j] == e2[j]) by {
                assert(m1.1.contains_key(j) == m2.1.contains_key(j));
            }
        } else {
            lemma_push_agree(m1.0, m2.0, x1, x2);
        }
    }
}

/// One fragment attached under two different traces and parents is
/// reassembled into the same records, in the same order, differing only in
/// their trace id and in the parent of the fragment's top-level spans —
/// provided none of its spans has the id of either parent.
pub proof fn lemma_fan_out_records_agree(
    l: LocalSpansInner,
    t1: TraceId,
    p1: SpanId,
    t2: TraceId,
    p2: SpanId,
)
    requires
        ids_avoid(l.spans@, p1.0, p2.0),
    ensures
        ({
            let r1 = postprocess(seq![(SpanSet::LocalSpansInner(l), t1, p1)], Map::empty()).0;
            let r2 = postprocess(seq![(SpanSet::LocalSpansInner(l), t2, p2)], Map::empty()).0;
            all_same_but_attachment(r1, r2)
        }),
{
    let e: DanglingMap = Map::empty();
    let none: Seq<SpanRecordView> = seq![];
    let a: Assembly = (none, e);
    let c1 = (SpanSet::LocalSpansInner(l), t1, p1);
    let c2 = (SpanSet::LocalSpansInner(l), t2, p2);
    assert(seq![c1].drop_last() =~= seq![]);
    assert(seq![c2].drop_last() =~= seq![]);
    assert(seq![c1].last() == c1);
    assert(seq![c2].last() == c2);
    assert(amend_collections(a, seq![c1].drop_last()) == a);
    assert(amend_collections(a, seq![c2].drop_last()) == a);
    assert(amend_collections(a, seq![c1]) == amend_local(a, l.spans@, l.end_time, t1, p1));
    assert(amend_collections(a, seq![c2]) == amend_local(a, l.spans@, l.end_time, t2, p2));
    lemma_amend_local_agree(a, a, l.spans@, l.end_time, t1, p1, t2, p2);
    let b1 = amend_local(a, l.spans@, l.end_time, t1, p1);
    let b2 = amend_local(a, l.spans@, l.end_time, t2, p2);
    lemma_amend_local_ids(a, l.spans@, l.end_time, t1, p1);
    lemma_mount_seq_agree(b1.0, b2.0, b1.1, b2.1, p1.0, p2.0);
}

proof fn lemma_amend_local_ids(
    a: Assembly,
    spans: Seq<RawSpan>,
    end_time: u64,
    t: TraceId,
    p: SpanId,
)
    requires
        a.0.len() == 0,
    ensures
        forall|i: int|
            0 <= i < amend_local(a, spans, end_time, t, p).0.len() ==> exists|j: int|
                0 <= j < spans.len() && (#[trigger] amend_local(a, spans, end_time, t, p).0[i]).span_id
                    == spans[j].id,
    decreases spans.len(),
{
    if spans.len() > 0 {
        lemma_amend_local_ids(a, spans.drop_last(), end_time, t, p);
        let b = amend_local(a, spans.drop_last(), end_time, t, p);
        let raw = spans.last();
        let c = amend_local(a, spans, end_time, t, p);
        assert forall|i: int| 0 <= i < c.0.len() implies exists|j: int|
            0 <= j < spans.len() && (#[trigger] c.0[i]).span_id == spans[j].id by {
            if i < b.0.len() {
                assert(c.0[i] == b.0[i]);
                let j = choose|j: int| 0 <= j < spans.drop_last().len() && b.0[i].span_id
                    == spans.drop_last()[j].id;
                assert(spans[j] == spans.drop_last()[j]);
            } else {
                assert(c.0[i].span_id == raw.id);
                assert(spans[spans.len() - 1] == raw);
            }
        }
    }
}

} // verus!
