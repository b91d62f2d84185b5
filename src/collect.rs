//! The producer side: a thread's handle on the aggregator, and the collector
//! that records the spans of one local scope.
use std::sync::atomic::AtomicUsize;
use std::sync::atomic::Ordering;

use vstd::prelude::*;

use crate::global_collector::CollectCommand;
use crate::global_collector::CommitCollect;
use crate::global_collector::DropCollect;
use crate::global_collector::StartCollect;
use crate::global_collector::SubmitSpans;
use crate::id::compose_id;
use crate::id::next_suffix;
use crate::id::IdGenerator;
use crate::id::SpanContext;
use crate::id::SpanId;
use crate::record::CollectToken;
use crate::record::CollectTokenItem;
use crate::record::LocalSpansInner;
use crate::record::Properties;
use crate::record::RawKind;
use crate::record::RawSpan;
use crate::record::SpanSet;
use crate::spsc::CommandSender;

verus! {

/// The sampled items of a token, in order.
pub open spec fn sampled_items(t: Seq<CollectTokenItem>) -> Seq<CollectTokenItem>
    decreases t.len(),
{
    if t.len() == 0 {
        seq![]
    } else {
        let p = sampled_items(t.drop_last());
        if t.last().is_sampled {
            p.push(t.last())
        } else {
            p
        }
    }
}

/// The sampled items of a token, in order.
fn retain_sampled(token: CollectToken) -> (r: CollectToken)
    ensures
        r@ == sampled_items(token@),
{
    let mut r: CollectToken = Vec::new();
    let mut i: usize = 0;
    while i < token.len()
        invariant
            i <= token@.len(),
            r@ == sampled_items(token@.subrange(0, i as int)),
        decreases token@.len() - i,
    {
        assert(token@.subrange(0, i + 1).drop_last() =~= token@.subrange(0, i as int));
        let item = token[i];
        if item.is_sampled {
            r.push(item);
        }
        i = i + 1;
    }
    assert(token@.subrange(0, i as int) =~= token@);
    r
}

/// A producer thread's handle on the aggregator: every call becomes one
/// command on the thread's channel.
pub struct GlobalCollect {
    sender: CommandSender,
}

impl GlobalCollect {
    /// A handle over a thread's command channel.
    pub fn new(sender: CommandSender) -> (r: GlobalCollect)
        ensures
            r.sent() == sender.sent(),
    {
        GlobalCollect { sender }
    }

    /// Every command sent so far, in order.
    pub closed spec fn sent(&self) -> Seq<CollectCommand> {
        self.sender.sent()
    }

    /// Takes a fresh collect id from `next_collect_id` and starts the
    /// aggregation of a trace under it.
    pub fn start_collect(&mut self, next_collect_id: &AtomicUsize) -> (r: usize)
        ensures
            final(self).sent() == old(self).sent().push(
                CollectCommand::StartCollect(StartCollect { collect_id: r }),
            ),
    {
        let collect_id = next_collect_id.fetch_add(1, Ordering::Relaxed);
        self.sender.send(CollectCommand::StartCollect(StartCollect { collect_id }));
        collect_id
    }

    /// Finishes the trace `collect_id`.
    pub fn commit_collect(&mut self, collect_id: usize)
        ensures
            final(self).sent() == old(self).sent().push(
                CollectCommand::CommitCollect(CommitCollect { collect_id }),
            ),
    {
        self.sender.send(CollectCommand::CommitCollect(CommitCollect { collect_id }));
    }

    /// Discards the trace `collect_id`.
    pub fn drop_collect(&mut self, collect_id: usize)
        ensures
            final(self).sent() == old(self).sent().push(
                CollectCommand::DropCollect(DropCollect { collect_id }),
            ),
    {
        self.sender.send(CollectCommand::DropCollect(DropCollect { collect_id }));
    }

    /// Pushes the commands still waiting for room into the channel.
    pub fn flush_pending(&mut self)
        ensures
            final(self).sent() == old(self).sent(),
    {
        self.sender.flush_pending();
    }

    /// Submits a fragment to the sampled traces of its token; nothing is sent
    /// when none of them is sampled.
    pub fn submit_spans(&mut self, spans: SpanSet, collect_token: CollectToken)
        ensures
            sampled_items(collect_token@).len() == 0 ==> final(self).sent() == old(self).sent(),
            sampled_items(collect_token@).len() > 0 ==> {
                &&& final(self).sent().len() == old(self).sent().len() + 1
                &&& final(self).sent().drop_last() == old(self).sent()
                &&& final(self).sent().last() matches CollectCommand::SubmitSpans(s)
                &&& s.spans == spans
                &&& s.collect_token@ == sampled_items(collect_token@)
            },
    {
        let kept = retain_sampled(collect_token);
        if kept.len() > 0 {
            let ghost s0 = self.sent();
            self.sender.send(CollectCommand::SubmitSpans(SubmitSpans { spans, collect_token: kept }));
            assert(self.sent().drop_last() =~= s0);
        }
    }
}

/// A raw item of a closed inner scope, as the enclosing scope takes it over:
/// without a parent of its own it goes under `parent`, and a span still open
/// ends at `end_time`.
pub open spec fn adopted_one(raw: RawSpan, parent: Option<SpanId>, end_time: u64) -> RawSpan {
    RawSpan {
        parent_id: if raw.parent_id.is_none() {
            parent
        } else {
            raw.parent_id
        },
        end_instant: if raw.end_instant == 0 {
            end_time
        } else {
            raw.end_instant
        },
        ..raw
    }
}

/// The raw items of a closed inner scope, taken over in order.
pub open spec fn adopted(spans: Seq<RawSpan>, parent: Option<SpanId>, end_time: u64) -> Seq<RawSpan>
    decreases spans.len(),
{
    if spans.len() == 0 {
        seq![]
    } else {
        adopted(spans.drop_last(), parent, end_time).push(adopted_one(spans.last(), parent, end_time))
    }
}

/// Records the spans, events and property updates of one local scope.
///
/// Spans nest: a span entered while another is open becomes its child, and
/// events and property updates go to the innermost open span. Items recorded
/// with no open span attach, at reassembly, under the parent that the scope's
/// collect token names.
pub struct LocalCollector {
    spans: Vec<RawSpan>,
    open: Vec<usize>,
    token: CollectToken,
    ids: IdGenerator,
}

impl LocalCollector {
    /// The recorded raw spans, in recording order.
    pub closed spec fn spans(&self) -> Seq<RawSpan> {
        self.spans@
    }

    /// The indices of the open spans, outermost first.
    pub closed spec fn open(&self) -> Seq<usize> {
        self.open@
    }

    /// The scope's attachments.
    pub closed spec fn token(&self) -> Seq<CollectTokenItem> {
        self.token@
    }

    /// The id generator's state.
    pub closed spec fn ids(&self) -> IdGenerator {
        self.ids
    }

    /// Every open index names a recorded span.
    pub open spec fn wf(&self) -> bool {
        forall|i: int| 0 <= i < self.open().len() ==> #[trigger] self.open()[i] < self.spans().len()
    }

    /// The id of the innermost open span, if any.
    pub open spec fn current_parent(&self) -> Option<SpanId> {
        if self.open().len() == 0 {
            None
        } else {
            Some(self.spans()[self.open().last() as int].id)
        }
    }

    /// The context of the innermost open span (or of the scope's parent when
    /// no span is open), from the first attachment; `None` without any.
    pub open spec fn spec_context(&self) -> Option<SpanContext> {
        if self.token().len() == 0 {
            None
        } else {
            Some(
                SpanContext {
                    trace_id: self.token()[0].trace_id,
                    span_id: match self.current_parent() {
                        Some(p) => p,
                        None => self.token()[0].parent_id,
                    },
                    sampled: self.token()[0].is_sampled,
                },
            )
        }
    }

    /// An empty scope attached to the traces of `token`.
    pub fn start(token: CollectToken, ids: IdGenerator) -> (r: LocalCollector)
        ensures
            r.wf(),
            r.spans() == Seq::<RawSpan>::empty(),
            r.open() == Seq::<usize>::empty(),
            r.token() == token@,
            r.ids() == ids,
    {
        LocalCollector { spans: Vec::new(), open: Vec::new(), token, ids }
    }

    /// The id of the innermost open span, if any.
    pub fn current_span_id(&self) -> (r: Option<SpanId>)
        requires
            self.wf(),
        ensures
            r == self.current_parent(),
    {
        if self.open.len() == 0 {
            None
        } else {
            let k = self.open[self.open.len() - 1];
            Some(self.spans[k].id)
        }
    }

    /// Opens a span named `name` at `now`, as a child of the innermost open
    /// span, and returns its fresh id.
    pub fn enter_span(&mut self, name: String, now: u64) -> (r: SpanId)
        requires
            old(self).wf(),
        ensures
            final(self).wf(),
            final(self).token() == old(self).token(),
            final(self).ids().prefix == old(self).ids().prefix,
            final(self).ids().suffix == next_suffix(old(self).ids().suffix),
            r.0 == compose_id(final(self).ids().prefix, final(self).ids().suffix),
            final(self).spans().len() == old(self).spans().len() + 1,
            final(self).spans().drop_last() == old(self).spans(),
            final(self).spans().last().id == r,
            final(self).spans().last().parent_id == old(self).current_parent(),
            final(self).spans().last().begin_instant == now,
            final(self).spans().last().name == name,
            final(self).spans().last().properties@ == Seq::<(String, String)>::empty(),
            final(self).spans().last().raw_kind == RawKind::Span,
            final(self).spans().last().end_instant == 0,
            final(self).open() == old(self).open().push(old(self).spans().len() as usize),
    {
        let parent = self.current_span_id();
        let id = self.ids.next_id();
        let index = self.spans.len();
        self.spans.push(RawSpan::begin_with(id, parent, now, name, RawKind::Span));
        self.open.push(index);
        assert(self.spans@.drop_last() =~= old(self).spans@);
        assert(self.wf()) by {
            assert forall|i: int| 0 <= i < self.open().len() implies #[trigger] self.open()[i]
                < self.spans().len() by {
                if i < old(self).open().len() {
                    assert(self.open()[i] == old(self).open()[i]);
                }
            }
        }
        id
    }

    /// Closes the innermost open span at `now`; does nothing if none is open.
    pub fn exit_span(&mut self, now: u64)
        requires
            old(self).wf(),
        ensures
            final(self).wf(),
            final(self).token() == old(self).token(),
            final(self).ids() == old(self).ids(),
            old(self).open().len() == 0 ==> final(self).spans() == old(self).spans(),
            old(self).open().len() == 0 ==> final(self).open() == old(self).open(),
            old(self).open().len() > 0 ==> {
                let k = old(self).open().last() as int;
                &&& final(self).open() == old(self).open().drop_last()
                &&& final(self).spans().len() == old(self).spans().len()
                &&& final(self).spans()[k] == (RawSpan { end_instant: now, ..old(self).spans()[k] })
                &&& forall|j: int|
                    0 <= j < old(self).spans().len() && j != k ==> #[trigger] final(self).spans()[j]
                        == old(self).spans()[j]
            },
    {
        match self.open.pop() {
            Some(k) => {
                let mut raw = RawSpan::begin_with(SpanId(0), None, 0, String::new(), RawKind::Span);
                self.spans.set_and_swap(k, &mut raw);
                raw.end_with(now);
                self.spans.set(k, raw);
                assert(self.wf()) by {
                    assert forall|i: int| 0 <= i < self.open().len() implies #[trigger] self.open()[i]
                        < self.spans().len() by {
                        assert(self.open()[i] == old(self).open()[i]);
                    }
                }
            },
            None => {},
        }
    }

    /// Records a zero-duration item of kind `kind` at `now` under the
    /// innermost open span.
    fn record_item(&mut self, name: String, properties: Properties, kind: RawKind, now: u64)
        requires
            old(self).wf(),
        ensures
            final(self).wf(),
            final(self).token() == old(self).token(),
            final(self).ids() == old(self).ids(),
            final(self).open() == old(self).open(),
            final(self).spans().drop_last() == old(self).spans(),
            final(self).spans().len() == old(self).spans().len() + 1,
            final(self).spans().last().parent_id == old(self).current_parent(),
            final(self).spans().last().begin_instant == now,
            final(self).spans().last().end_instant == now,
            final(self).spans().last().name == name,
            final(self).spans().last().properties@ == properties@,
            final(self).spans().last().raw_kind == kind,
    {
        let parent = self.current_span_id();
        let raw = RawSpan {
            id: SpanId(0),
            parent_id: parent,
            begin_instant: now,
            name,
            properties,
            raw_kind: kind,
            end_instant: now,
        };
        self.spans.push(raw);
        assert(self.spans@.drop_last() =~= old(self).spans@);
        assert(self.wf()) by {
            assert forall|i: int| 0 <= i < self.open().len() implies #[trigger] self.open()[i]
                < self.spans().len() by {
                assert(self.open()[i] == old(self).open()[i]);
            }
        }
    }

    /// Records an event at `now` under the innermost open span.
    pub fn add_event(&mut self, name: String, properties: Properties, now: u64)
        requires
            old(self).wf(),
        ensures
            final(self).wf(),
            final(self).token() == old(self).token(),
            final(self).ids() == old(self).ids(),
            final(self).open() == old(self).open(),
            final(self).spans().drop_last() == old(self).spans(),
            final(self).spans().len() == old(self).spans().len() + 1,
            final(self).spans().last().parent_id == old(self).current_parent(),
            final(self).spans().last().begin_instant == now,
            final(self).spans().last().name == name,
            final(self).spans().last().properties@ == properties@,
            final(self).spans().last().raw_kind == RawKind::Event,
    {
        self.record_item(name, properties, RawKind::Event, now);
    }

    /// Adds properties to the innermost open span (applied at reassembly).
    pub fn add_properties(&mut self, properties: Properties, now: u64)
        requires
            old(self).wf(),
        ensures
            final(self).wf(),
            final(self).token() == old(self).token(),
            final(self).ids() == old(self).ids(),
            final(self).open() == old(self).open(),
            final(self).spans().drop_last() == old(self).spans(),
            final(self).spans().len() == old(self).spans().len() + 1,
            final(self).spans().last().parent_id == old(self).current_parent(),
            final(self).spans().last().properties@ == properties@,
            final(self).spans().last().raw_kind == RawKind::Properties,
    {
        self.record_item(String::new(), properties, RawKind::Properties, now);
    }

    /// Takes over the spans of a closed inner scope that ended at `end_time`:
    /// its top-level items go under this scope's innermost open span, its
    /// spans still open end at `end_time`, and id generation continues from
    /// `ids`.
    pub fn adopt(&mut self, spans: Vec<RawSpan>, end_time: u64, ids: IdGenerator)
        requires
            old(self).wf(),
        ensures
            final(self).wf(),
            final(self).token() == old(self).token(),
            final(self).open() == old(self).open(),
            final(self).ids() == ids,
            final(self).spans() == old(self).spans() + adopted(
                spans@,
                old(self).current_parent(),
                end_time,
            ),
    {
        let parent = self.current_span_id();
        let ghost s0 = self.spans@;
        let ghost src = spans@;
        let mut spans = spans;
        let n = spans.len();
        let mut i: usize = 0;
        while i < n
            invariant
                i <= n,
                n == src.len(),
                spans@.len() == n,
                forall|j: int| i <= j < n ==> #[trigger] spans@[j] == src[j],
                self.spans@ == s0 + adopted(src.subrange(0, i as int), parent, end_time),
                self.open@ == old(self).open@,
                self.token@ == old(self).token@,
                self.ids == old(self).ids,
                parent == old(self).current_parent(),
                s0 == old(self).spans@,
            decreases n - i,
        {
            let mut raw = RawSpan::begin_with(SpanId(0), None, 0, String::new(), RawKind::Span);
            spans.set_and_swap(i, &mut raw);
            assert(raw == src[i as int]);
            if raw.parent_id.is_none() {
                raw.parent_id = parent;
            }
            if raw.end_instant == 0 {
                raw.end_instant = end_time;
            }
            let ghost before = self.spans@;
            self.spans.push(raw);
            assert(src.subrange(0, i + 1).drop_last() =~= src.subrange(0, i as int));
            assert(adopted(src.subrange(0, i + 1), parent, end_time) =~= adopted(
                src.subrange(0, i as int),
                parent,
                end_time,
            ).push(adopted_one(src[i as int], parent, end_time)));
            assert(self.spans@ =~= s0 + adopted(src.subrange(0, i + 1), parent, end_time));
            i = i + 1;
        }
        assert(src.subrange(0, n as int) =~= src);
        self.ids = ids;
        assert(self.wf()) by {
            assert forall|j: int| 0 <= j < self.open().len() implies #[trigger] self.open()[j]
                < self.spans().len() by {
                assert(self.open()[j] == old(self).open()[j]);
            }
        }
    }

    /// The context of the innermost open span (or of the scope's parent when
    /// no span is open), from the first attachment; `None` without any.
    pub fn context(&self) -> (r: Option<SpanContext>)
        requires
            self.wf(),
        ensures
            r == self.spec_context(),
    {
        if self.token.len() == 0 {
            return None;
        }
        let item = self.token[0];
        let span_id = match self.current_span_id() {
            Some(p) => p,
            None => item.parent_id,
        };
        Some(SpanContext { trace_id: item.trace_id, span_id, sampled: item.is_sampled })
    }

    /// The id generator's state.
    pub fn generator(&self) -> (r: IdGenerator)
        ensures
            r == self.ids(),
    {
        self.ids
    }

    /// The scope's first attachment, if any.
    pub fn first_item(&self) -> (r: Option<CollectTokenItem>)
        ensures
            self.token().len() == 0 ==> r.is_none(),
            self.token().len() > 0 ==> r == Some(self.token()[0]),
    {
        if self.token.len() == 0 {
            None
        } else {
            Some(self.token[0])
        }
    }

    /// Ends the scope: the recorded spans as one fragment whose open spans end
    /// at `end_time`, and the scope's token.
    pub fn collect(self, end_time: u64) -> (r: (LocalSpansInner, CollectToken))
        ensures
            r.0.spans@ == self.spans(),
            r.0.end_time == end_time,
            r.1@ == self.token(),
    {
        (LocalSpansInner { spans: self.spans, end_time }, self.token)
    }
}

/// The per-thread stack of local-parent scopes. Spans, events and property
/// updates go to the innermost scope; outside any scope they are dropped.
/// When an inner scope closes, its spans are taken over by the enclosing
/// scope, under that scope's innermost open span; when the outermost scope
/// closes, its fragment is handed back to be submitted.
pub struct LocalSpanStack {
    frames: Vec<LocalCollector>,
    ids: IdGenerator,
}

impl LocalSpanStack {
    /// The open scopes, outermost first.
    pub closed spec fn frames(&self) -> Seq<LocalCollector> {
        self.frames@
    }

    /// The id generator used while no scope is open.
    pub closed spec fn idle_ids(&self) -> IdGenerator {
        self.ids
    }

    /// Every scope is well formed.
    pub open spec fn wf(&self) -> bool {
        forall|i: int| 0 <= i < self.frames().len() ==> (#[trigger] self.frames()[i]).wf()
    }

    /// The generator the next span id comes from.
    pub open spec fn current_ids(&self) -> IdGenerator {
        if self.frames().len() == 0 {
            self.idle_ids()
        } else {
            self.frames().last().ids()
        }
    }

    /// A stack with no scope, generating ids with `ids`.
    pub fn new(ids: IdGenerator) -> (r: LocalSpanStack)
        ensures
            r.wf(),
            r.frames() == Seq::<LocalCollector>::empty(),
            r.idle_ids() == ids,
    {
        LocalSpanStack { frames: Vec::new(), ids }
    }

    fn current_generator(&self) -> (r: IdGenerator)
        requires
            self.wf(),
        ensures
            r == self.current_ids(),
    {
        if self.frames.len() == 0 {
            self.ids
        } else {
            self.frames[self.frames.len() - 1].generator()
        }
    }

    /// Opens a scope attached to the traces of `token`.
    pub fn enter_scope(&mut self, token: CollectToken)
        requires
            old(self).wf(),
        ensures
            final(self).wf(),
            final(self).frames().len() == old(self).frames().len() + 1,
            final(self).frames().drop_last() == old(self).frames(),
            final(self).frames().last().spans() == Seq::<RawSpan>::empty(),
            final(self).frames().last().open() == Seq::<usize>::empty(),
            final(self).frames().last().token() == token@,
            final(self).frames().last().ids() == old(self).current_ids(),
            final(self).idle_ids() == old(self).idle_ids(),
    {
        let ids = self.current_generator();
        self.frames.push(LocalCollector::start(token, ids));
        assert(self.frames@.drop_last() =~= old(self).frames@);
        assert(self.wf()) by {
            assert forall|i: int| 0 <= i < self.frames().len() implies (#[trigger] self.frames()[i]).wf() by {
                if i < old(self).frames().len() {
                    assert(self.frames()[i] == old(self).frames()[i]);
                }
            }
        }
    }

    /// Closes the innermost scope at `now`. An inner scope's spans are taken
    /// over by the enclosing scope and `None` is returned; the outermost
    /// scope's fragment and token are returned. Without any scope, nothing
    /// happens.
    pub fn exit_scope(&mut self, now: u64) -> (r: Option<(LocalSpansInner, CollectToken)>)
        requires
            old(self).wf(),
        ensures
            final(self).wf(),
            old(self).frames().len() == 0 ==> r.is_none() && final(self).frames() == old(self).frames(),
            old(self).frames().len() == 1 ==> ({
                &&& final(self).frames().len() == 0
                &&& final(self).idle_ids() == old(self).frames()[0].ids()
                &&& r matches Some(f)
                &&& f.0.spans@ == old(self).frames()[0].spans()
                &&& f.0.end_time == now
                &&& f.1@ == old(self).frames()[0].token()
            }),
            old(self).frames().len() > 1 ==> ({
                let n = old(self).frames().len();
                let inner = old(self).frames()[n - 1];
                let outer = old(self).frames()[n - 2];
                &&& r.is_none()
                &&& final(self).frames().len() == n - 1
                &&& final(self).frames().drop_last() == old(self).frames().subrange(0, n - 2)
                &&& final(self).frames().last().spans() == outer.spans() + adopted(
                    inner.spans(),
                    outer.current_parent(),
                    now,
                )
                &&& final(self).frames().last().open() == outer.open()
                &&& final(self).frames().last().token() == outer.token()
                &&& final(self).frames().last().ids() == inner.ids()
            }),
    {
        let ghost n = self.frames@.len();
        match self.frames.pop() {
            None => None,
            Some(inner) => {
                let ids = inner.generator();
                let (frag, token) = inner.collect(now);
                if self.frames.len() == 0 {
                    self.ids = ids;
                    Some((frag, token))
                } else {
                    let k = self.frames.len() - 1;
                    let mut outer = LocalCollector::start(Vec::new(), ids);
                    self.frames.set_and_swap(k, &mut outer);
                    assert(outer.wf());
                    outer.adopt(frag.spans, now, ids);
                    self.frames.set(k, outer);
                    assert(self.frames@.drop_last() =~= old(self).frames@.subrange(0, n - 2));
                    assert(self.wf()) by {
                        assert forall|i: int| 0 <= i < self.frames().len() implies (
                        #[trigger] self.frames()[i]).wf() by {
                            if i < k {
                                assert(self.frames()[i] == old(self).frames()[i]);
                            }
                        }
                    }
                    None
                }
            },
        }
    }

    /// Opens a span in the innermost scope; outside any scope nothing is
    /// recorded and `None` is returned.
    pub fn enter_span(&mut self, name: String, now: u64) -> (r: Option<SpanId>)
        requires
            old(self).wf(),
        ensures
            final(self).wf(),
            final(self).frames().len() == old(self).frames().len(),
            final(self).idle_ids() == old(self).idle_ids(),
            old(self).frames().len() == 0 ==> r.is_none() && final(self).frames() == old(self).frames(),
            old(self).frames().len() > 0 ==> ({
                let top = old(self).frames().last();
                let new_top = final(self).frames().last();
                &&& final(self).frames().drop_last() == old(self).frames().drop_last()
                &&& r matches Some(id)
                &&& id.0 == compose_id(new_top.ids().prefix, new_top.ids().suffix)
                &&& new_top.ids().prefix == top.ids().prefix
                &&& new_top.ids().suffix == next_suffix(top.ids().suffix)
                &&& new_top.spans().drop_last() == top.spans()
                &&& new_top.spans().last().id == id
                &&& new_top.spans().last().parent_id == top.current_parent()
                &&& new_top.spans().last().name == name
                &&& new_top.spans().last().begin_instant == now
                &&& new_top.spans().last().raw_kind == RawKind::Span
                &&& new_top.spans().last().end_instant == 0
                &&& new_top.open() == top.open().push(top.spans().len() as usize)
                &&& new_top.token() == top.token()
            }),
    {
        if self.frames.len() == 0 {
            return None;
        }
        let k = self.frames.len() - 1;
        let mut top = LocalCollector::start(Vec::new(), self.ids);
        self.frames.set_and_swap(k, &mut top);
        assert(top.wf());
        let id = top.enter_span(name, now);
        self.frames.set(k, top);
        assert(self.frames@.drop_last() =~= old(self).frames@.drop_last());
        assert(self.wf()) by {
            assert forall|i: int| 0 <= i < self.frames().len() implies (#[trigger] self.frames()[i]).wf() by {
                if i < k {
                    assert(self.frames()[i] == old(self).frames()[i]);
                }
            }
        }
        Some(id)
    }

    /// Closes the innermost open span of the innermost scope at `now`.
    pub fn exit_span(&mut self, now: u64)
        requires
            old(self).wf(),
        ensures
            final(self).wf(),
            final(self).frames().len() == old(self).frames().len(),
            final(self).idle_ids() == old(self).idle_ids(),
            old(self).frames().len() > 0 ==> final(self).frames().drop_last() == old(self).frames().drop_last(),
            old(self).frames().len() > 0 && old(self).frames().last().open().len() > 0 ==> ({
                let top = old(self).frames().last();
                let new_top = final(self).frames().last();
                let k = top.open().last() as int;
                &&& new_top.open() == top.open().drop_last()
                &&& new_top.spans() == top.spans().update(
                    k,
                    RawSpan { end_instant: now, ..top.spans()[k] },
                )
                &&& new_top.token() == top.token()
                &&& new_top.ids() == top.ids()
            }),
    {
        if self.frames.len() == 0 {
            return;
        }
        let k = self.frames.len() - 1;
        let mut top = LocalCollector::start(Vec::new(), self.ids);
        self.frames.set_and_swap(k, &mut top);
        assert(top.wf());
        let ghost t0 = top;
        top.exit_span(now);
        proof {
            if t0.open().len() > 0 {
                let j = t0.open().last() as int;
                assert(top.spans() =~= t0.spans().update(j, RawSpan { end_instant: now, ..t0.spans()[j] }));
            }
        }
        self.frames.set(k, top);
        assert(self.frames@.drop_last() =~= old(self).frames@.drop_last());
        assert(self.wf()) by {
            assert forall|i: int| 0 <= i < self.frames().len() implies (#[trigger] self.frames()[i]).wf() by {
                if i < k {
                    assert(self.frames()[i] == old(self).frames()[i]);
                }
            }
        }
    }

    /// Records an event in the innermost scope, under its innermost open
    /// span; outside any scope it is dropped.
    pub fn add_event(&mut self, name: String, properties: Properties, now: u64)
        requires
            old(self).wf(),
        ensures
            final(self).wf(),
            final(self).frames().len() == old(self).frames().len(),
            final(self).idle_ids() == old(self).idle_ids(),
            old(self).frames().len() == 0 ==> final(self).frames() == old(self).frames(),
            old(self).frames().len() > 0 ==> ({
                let top = old(self).frames().last();
                let new_top = final(self).frames().last();
                &&& final(self).frames().drop_last() == old(self).frames().drop_last()
                &&& new_top.spans().drop_last() == top.spans()
                &&& new_top.spans().last().parent_id == top.current_parent()
                &&& new_top.spans().last().name == name
                &&& new_top.spans().last().begin_instant == now
                &&& new_top.spans().last().properties@ == properties@
                &&& new_top.spans().last().raw_kind == RawKind::Event
                &&& new_top.open() == top.open()
                &&& new_top.token() == top.token()
                &&& new_top.ids() == top.ids()
            }),
    {
        if self.frames.len() == 0 {
            return;
        }
        let k = self.frames.len() - 1;
        let mut top = LocalCollector::start(Vec::new(), self.ids);
        self.frames.set_and_swap(k, &mut top);
        assert(top.wf());
        top.add_event(name, properties, now);
        self.frames.set(k, top);
        assert(self.frames@.drop_last() =~= old(self).frames@.drop_last());
        assert(self.wf()) by {
            assert forall|i: int| 0 <= i < self.frames().len() implies (#[trigger] self.frames()[i]).wf() by {
                if i < k {
                    assert(self.frames()[i] == old(self).frames()[i]);
                }
            }
        }
    }

    /// Adds properties to the innermost open span of the innermost scope;
    /// outside any scope they are dropped.
    pub fn add_properties(&mut self, properties: Properties, now: u64)
        requires
            old(self).wf(),
        ensures
            final(self).wf(),
            final(self).frames().len() == old(self).frames().len(),
            final(self).idle_ids() == old(self).idle_ids(),
            old(self).frames().len() == 0 ==> final(self).frames() == old(self).frames(),
            old(self).frames().len() > 0 ==> ({
                let top = old(self).frames().last();
                let new_top = final(self).frames().last();
                &&& final(self).frames().drop_last() == old(self).frames().drop_last()
                &&& new_top.spans().drop_last() == top.spans()
                &&& new_top.spans().last().parent_id == top.current_parent()
                &&& new_top.spans().last().properties@ == properties@
                &&& new_top.spans().last().raw_kind == RawKind::Properties
                &&& new_top.open() == top.open()
                &&& new_top.token() == top.token()
                &&& new_top.ids() == top.ids()
            }),
    {
        if self.frames.len() == 0 {
            return;
        }
        let k = self.frames.len() - 1;
        let mut top = LocalCollector::start(Vec::new(), self.ids);
        self.frames.set_and_swap(k, &mut top);
        assert(top.wf());
        top.add_properties(properties, now);
        self.frames.set(k, top);
        assert(self.frames@.drop_last() =~= old(self).frames@.drop_last());
        assert(self.wf()) by {
            assert forall|i: int| 0 <= i < self.frames().len() implies (#[trigger] self.frames()[i]).wf() by {
                if i < k {
                    assert(self.frames()[i] == old(self).frames()[i]);
                }
            }
        }
    }
}

impl SpanContext {
    /// The context a span's collect token stands for: the trace, the span and
    /// the sampling of its first attachment; `None` for an empty token.
    pub fn from_span(collect_token: &CollectToken) -> (r: Option<SpanContext>)
        ensures
            collect_token@.len() == 0 ==> r.is_none(),
            collect_token@.len() > 0 ==> r == Some(
                SpanContext {
                    trace_id: collect_token@[0].trace_id,
                    span_id: collect_token@[0].parent_id,
                    sampled: collect_token@[0].is_sampled,
                },
            ),
    {
        if collect_token.len() == 0 {
            None
        } else {
            let item = collect_token[0];
            Some(SpanContext { trace_id: item.trace_id, span_id: item.parent_id, sampled: item.is_sampled })
        }
    }

    /// The context of the current local parent: the innermost open span of
    /// the innermost scope (or that scope's own parent when no span is open),
    /// from the scope's first attachment; `None` outside any scope or when the
    /// scope is attached to no trace.
    pub fn current_local_parent(stack: &LocalSpanStack) -> (r: Option<SpanContext>)
        requires
            stack.wf(),
        ensures
            stack.frames().len() == 0 ==> r.is_none(),
            stack.frames().len() > 0 ==> r == stack.frames().last().spec_context(),
    {
        if stack.frames.len() == 0 {
            None
        } else {
            stack.frames[stack.frames.len() - 1].context()
        }
    }
}

} // verus!
