//! The aggregator: the single consumer of collection commands, which keeps one
//! accumulating state per in-flight trace and emits finished records.
//!
//! One aggregation cycle takes every command drained from the producers and
//! applies them by kind: first the starts, then the drops (which override
//! anything else seen for the same trace in the cycle), then the submitted
//! fragments, then the commits. Without tail sampling, the traces that are
//! still active are flushed as far as they go, and fragments for unknown
//! traces are reassembled on their own, grouped by trace id.
use std::collections::HashMap;
use std::sync::Arc;
use std::time::Duration;

use vstd::prelude::*;

use crate::id::SpanId;
use crate::id::TraceId;
use crate::reassembly::coll_view;
use crate::reassembly::colls_view;
use crate::reassembly::danglings_view;
use crate::reassembly::postprocess;
use crate::reassembly::resolved_end;
use crate::reassembly::span_record_of;
use crate::reassembly::amend_collections;
use crate::reassembly::amend_local;
use crate::reassembly::mount_seq;
use crate::reassembly::Assembly;
use crate::reassembly::postprocess_span_collection;
use crate::reassembly::CollView;
use crate::reassembly::DanglingMap;
use crate::reassembly::Danglings;
use crate::reassembly::SpanCollection;
use crate::record::records_view;
use crate::record::saturating_diff;
use crate::record::CollectToken;
use crate::record::CollectTokenItem;
use crate::record::LocalSpansInner;
use crate::record::RawKind;
use crate::record::SpanRecord;
use crate::record::SpanRecordView;
use crate::record::SpanSet;

verus! {

broadcast use vstd::std_specs::hash::group_hash_axioms;

pub assume_specification[ Duration::from_secs ](secs: u64) -> Duration;

/// Configuration of the aggregator.
#[derive(Debug, Copy, Clone, PartialEq, Eq)]
pub struct Config {
    /// The longest wait between two aggregation cycles.
    pub report_interval: Duration,
    /// Hold every trace until its explicit commit, so that a drop suppresses
    /// it entirely; otherwise active traces are flushed every cycle.
    pub tail_sampled: bool,
}

impl Default for Config {
    fn default() -> (r: Config)
        ensures
            !r.tail_sampled,
    {
        Config { report_interval: Duration::from_secs(1), tail_sampled: false }
    }
}

impl Config {
    /// Sets the longest wait between two aggregation cycles.
    pub fn report_interval(self, report_interval: Duration) -> (r: Config)
        ensures
            r == (Config { report_interval, ..self }),
    {
        Config { report_interval, ..self }
    }

    /// Sets whether traces are held until their explicit commit.
    pub fn tail_sampled(self, tail_sampled: bool) -> (r: Config)
        ensures
            r == (Config { tail_sampled, ..self }),
    {
        Config { tail_sampled, ..self }
    }

    /// Accepted for compatibility; changes nothing.
    pub fn max_spans_per_trace(self, _max_spans_per_trace: Option<usize>) -> (r: Config)
        ensures
            r == self,
    {
        self
    }

    /// Accepted for compatibility; changes nothing.
    pub fn report_before_root_finish(self, _report_before_root_finish: bool) -> (r: Config)
        ensures
            r == self,
    {
        self
    }
}

/// How long the aggregator sleeps after a cycle that took `elapsed_ns`: the
/// rest of the report interval, or nothing when the cycle took longer.
pub fn next_wait_ns(report_interval_ns: u64, elapsed_ns: u64) -> (r: u64)
    ensures
        r == saturating_diff(report_interval_ns, elapsed_ns),
{
    if report_interval_ns >= elapsed_ns {
        report_interval_ns - elapsed_ns
    } else {
        0
    }
}

/// Receives the finished records of each aggregation cycle, typically to
/// send them to a tracing backend.
pub trait Reporter: Send + 'static {
    /// Reports one batch of finished records.
    fn report(&mut self, spans: Vec<SpanRecord>);
}

/// Begins the aggregation of a trace.
#[derive(Debug)]
pub struct StartCollect {
    pub collect_id: usize,
}

/// Cancels the aggregation of a trace; handled as a drop.
#[derive(Debug)]
pub struct CancelCollect {
    pub collect_id: usize,
}

/// Discards everything accumulated for a trace.
#[derive(Debug)]
pub struct DropCollect {
    pub collect_id: usize,
}

/// Finishes a trace: reassembles and emits it.
#[derive(Debug)]
pub struct CommitCollect {
    pub collect_id: usize,
}

/// A fragment and the traces it attaches to.
#[derive(Debug)]
pub struct SubmitSpans {
    pub spans: SpanSet,
    pub collect_token: CollectToken,
}

/// A command from a producer thread to the aggregator.
#[derive(Debug)]
pub enum CollectCommand {
    StartCollect(StartCollect),
    CancelCollect(CancelCollect),
    DropCollect(DropCollect),
    CommitCollect(CommitCollect),
    SubmitSpans(SubmitSpans),
}

/// The ids started by a sequence of commands, in order.
pub open spec fn start_ids(cmds: Seq<CollectCommand>) -> Seq<usize>
    decreases cmds.len(),
{
    if cmds.len() == 0 {
        seq![]
    } else {
        let p = start_ids(cmds.drop_last());
        match cmds.last() {
            CollectCommand::StartCollect(c) => p.push(c.collect_id),
            _ => p,
        }
    }
}

/// The ids dropped or cancelled by a sequence of commands, in order.
pub open spec fn drop_ids(cmds: Seq<CollectCommand>) -> Seq<usize>
    decreases cmds.len(),
{
    if cmds.len() == 0 {
        seq![]
    } else {
        let p = drop_ids(cmds.drop_last());
        match cmds.last() {
            CollectCommand::DropCollect(c) => p.push(c.collect_id),
            CollectCommand::CancelCollect(c) => p.push(c.collect_id),
            _ => p,
        }
    }
}

/// The ids committed by a sequence of commands, in order.
pub open spec fn commit_ids(cmds: Seq<CollectCommand>) -> Seq<usize>
    decreases cmds.len(),
{
    if cmds.len() == 0 {
        seq![]
    } else {
        let p = commit_ids(cmds.drop_last());
        match cmds.last() {
            CollectCommand::CommitCollect(c) => p.push(c.collect_id),
            _ => p,
        }
    }
}

/// The fragments submitted by a sequence of commands, in order.
pub open spec fn submits_of(cmds: Seq<CollectCommand>) -> Seq<SubmitSpans>
    decreases cmds.len(),
{
    if cmds.len() == 0 {
        seq![]
    } else {
        let p = submits_of(cmds.drop_last());
        match cmds.last() {
            CollectCommand::SubmitSpans(c) => p.push(c),
            _ => p,
        }
    }
}

/// What is accumulated for one active trace.
pub struct ActiveCollector {
    pub span_collections: Vec<SpanCollection>,
    pub danglings: Danglings,
}

/// The model of an [`ActiveCollector`].
pub struct ActiveModel {
    pub collections: Seq<CollView>,
    pub danglings: DanglingMap,
}

/// The model of an [`ActiveCollector`].
pub open spec fn active_model(a: ActiveCollector) -> ActiveModel {
    ActiveModel {
        collections: colls_view(a.span_collections@),
        danglings: danglings_view(a.danglings@),
    }
}

/// The state of a trace that has just started.
pub open spec fn fresh_active() -> ActiveModel {
    ActiveModel { collections: seq![], danglings: Map::empty() }
}

/// The models of the active traces, by collect id.
pub open spec fn actives_view(m: Map<usize, ActiveCollector>) -> Map<usize, ActiveModel> {
    m.map_values(|a: ActiveCollector| active_model(a))
}

/// The model of the aggregator: the active traces, and the order in which
/// they are walked when flushed.
pub struct CollectorModel {
    pub active: Map<usize, ActiveModel>,
    pub order: Seq<usize>,
}

/// Starts applied in order: each id gets a fresh state (a restart discards
/// what was there) and joins the walk order if it was not active.
pub open spec fn apply_starts(m: CollectorModel, ids: Seq<usize>) -> CollectorModel
    decreases ids.len(),
{
    if ids.len() == 0 {
        m
    } else {
        let p = apply_starts(m, ids.drop_last());
        let id = ids.last();
        CollectorModel {
            active: p.active.insert(id, fresh_active()),
            order: if p.active.contains_key(id) {
                p.order
            } else {
                p.order.push(id)
            },
        }
    }
}

/// Drops applied: every dropped trace loses all its data.
pub open spec fn apply_drops(m: CollectorModel, ids: Seq<usize>) -> CollectorModel {
    CollectorModel { active: m.active.remove_keys(ids.to_set()), order: m.order }
}

/// Active traces and stale fragments during the submit phase.
pub type SubmitState = (Map<usize, ActiveModel>, Seq<CollView>);

/// A fragment for trace `id`: ignored when that trace was dropped in this
/// cycle, appended to it when active, otherwise stale (kept only without tail
/// sampling).
pub open spec fn submit_to(
    st: SubmitState,
    c: CollView,
    id: usize,
    dropped: Set<usize>,
    tail_sampled: bool,
) -> SubmitState {
    if dropped.contains(id) {
        st
    } else if st.0.contains_key(id) {
        (
            st.0.insert(
                id,
                ActiveModel { collections: st.0[id].collections.push(c), danglings: st.0[id].danglings },
            ),
            st.1,
        )
    } else if !tail_sampled {
        (st.0, st.1.push(c))
    } else {
        st
    }
}

/// One attachment of a submitted fragment.
pub open spec fn submit_item(
    st: SubmitState,
    spans: SpanSet,
    item: CollectTokenItem,
    dropped: Set<usize>,
    tail_sampled: bool,
) -> SubmitState {
    submit_to(st, (spans, item.trace_id, item.parent_id), item.collect_id, dropped, tail_sampled)
}

/// All attachments of one submitted fragment, in token order.
pub open spec fn submit_items(
    st: SubmitState,
    spans: SpanSet,
    items: Seq<CollectTokenItem>,
    dropped: Set<usize>,
    tail_sampled: bool,
) -> SubmitState
    decreases items.len(),
{
    if items.len() == 0 {
        st
    } else {
        submit_item(
            submit_items(st, spans, items.drop_last(), dropped, tail_sampled),
            spans,
            items.last(),
            dropped,
            tail_sampled,
        )
    }
}

/// All submitted fragments, in order.
pub open spec fn apply_submits(
    st: SubmitState,
    subs: Seq<SubmitSpans>,
    dropped: Set<usize>,
    tail_sampled: bool,
) -> SubmitState
    decreases subs.len(),
{
    if subs.len() == 0 {
        st
    } else {
        let s = subs.last();
        submit_items(
            apply_submits(st, subs.drop_last(), dropped, tail_sampled),
            s.spans,
            s.collect_token@,
            dropped,
            tail_sampled,
        )
    }
}

/// Commits applied in order: an active trace is reassembled, emitted and
/// removed; a commit of a trace that is not active does nothing.
pub open spec fn apply_commits(active: Map<usize, ActiveModel>, ids: Seq<usize>) -> (
    Map<usize, ActiveModel>,
    Seq<SpanRecordView>,
)
    decreases ids.len(),
{
    if ids.len() == 0 {
        (active, seq![])
    } else {
        let p = apply_commits(active, ids.drop_last());
        let id = ids.last();
        if p.0.contains_key(id) {
            (
                p.0.remove(id),
                p.1 + postprocess(p.0[id].collections, p.0[id].danglings).0,
            )
        } else {
            p
        }
    }
}

/// The periodic flush, walking `order`: each active trace emits what it has,
/// keeps its pending items and starts over with no fragments.
pub open spec fn flush_active(active: Map<usize, ActiveModel>, order: Seq<usize>) -> (
    Map<usize, ActiveModel>,
    Seq<SpanRecordView>,
)
    decreases order.len(),
{
    if order.len() == 0 {
        (active, seq![])
    } else {
        let p = flush_active(active, order.drop_last());
        let id = order.last();
        if p.0.contains_key(id) {
            let r = postprocess(p.0[id].collections, p.0[id].danglings);
            (p.0.insert(id, ActiveModel { collections: seq![], danglings: r.1 }), p.1 + r.0)
        } else {
            p
        }
    }
}

/// Whether a collect id is active.
pub open spec fn is_live(active: Map<usize, ActiveModel>) -> spec_fn(usize) -> bool {
    |id: usize| active.contains_key(id)
}

/// The ids of `order` that are still active, in order.
pub open spec fn live_order(active: Map<usize, ActiveModel>, order: Seq<usize>) -> Seq<usize> {
    order.filter(is_live(active))
}

/// Whether a fragment goes to trace `t`.
pub open spec fn on_trace(t: TraceId) -> spec_fn(CollView) -> bool {
    |c: CollView| c.1 == t
}

/// The stale fragments of one trace, in order.
pub open spec fn stale_of(stale: Seq<CollView>, t: TraceId) -> Seq<CollView> {
    stale.filter(on_trace(t))
}

/// Whether `groups` holds the stale fragments grouped by trace: one group per
/// trace id, by increasing trace id, each with that trace's fragments in order.
pub open spec fn groups_stale(groups: Seq<(TraceId, Seq<CollView>)>, stale: Seq<CollView>) -> bool {
    &&& forall|i: int, j: int| 0 <= i < j < groups.len() ==> (#[trigger] groups[i]).0.0 < (
    #[trigger] groups[j]).0.0
    &&& forall|k: int| 0 <= k < groups.len() ==> (#[trigger] groups[k]).1 == stale_of(
        stale,
        groups[k].0,
    )
    &&& forall|i: int| 0 <= i < stale.len() ==> has_group(groups, (#[trigger] stale[i]).1)
}

/// Whether some group is for trace `t`.
pub open spec fn has_group(groups: Seq<(TraceId, Seq<CollView>)>, t: TraceId) -> bool {
    exists|k: int| 0 <= k < groups.len() && (#[trigger] groups[k]).0 == t
}

/// Each group reassembled on its own, with nothing pending, in group order.
pub open spec fn stale_output(groups: Seq<(TraceId, Seq<CollView>)>) -> Seq<SpanRecordView>
    decreases groups.len(),
{
    if groups.len() == 0 {
        seq![]
    } else {
        stale_output(groups.drop_last()) + postprocess(groups.last().1, Map::empty()).0
    }
}

/// The state after the starts and drops of a cycle.
pub open spec fn cycle_prelude(m: CollectorModel, cmds: Seq<CollectCommand>) -> CollectorModel {
    apply_drops(apply_starts(m, start_ids(cmds)), drop_ids(cmds))
}

/// The active traces and stale fragments after the submits of a cycle.
pub open spec fn cycle_submitted(m: CollectorModel, cmds: Seq<CollectCommand>, tail_sampled: bool)
    -> SubmitState {
    apply_submits(
        (cycle_prelude(m, cmds).active, seq![]),
        submits_of(cmds),
        drop_ids(cmds).to_set(),
        tail_sampled,
    )
}

/// The active traces after the commits of a cycle, and the committed records.
pub open spec fn cycle_committed(m: CollectorModel, cmds: Seq<CollectCommand>, tail_sampled: bool) -> (
    Map<usize, ActiveModel>,
    Seq<SpanRecordView>,
) {
    apply_commits(cycle_submitted(m, cmds, tail_sampled).0, commit_ids(cmds))
}

/// The active traces at the end of a cycle, and the records of committed and
/// (without tail sampling) flushed traces, in that order.
pub open spec fn cycle_flushed(m: CollectorModel, cmds: Seq<CollectCommand>, tail_sampled: bool) -> (
    Map<usize, ActiveModel>,
    Seq<SpanRecordView>,
) {
    let c = cycle_committed(m, cmds, tail_sampled);
    if tail_sampled {
        c
    } else {
        let f = flush_active(c.0, cycle_prelude(m, cmds).order);
        (f.0, c.1 + f.1)
    }
}

/// The aggregator's model at the end of a cycle.
pub open spec fn cycle_state(m: CollectorModel, cmds: Seq<CollectCommand>, tail_sampled: bool)
    -> CollectorModel {
    CollectorModel {
        active: cycle_flushed(m, cmds, tail_sampled).0,
        order: live_order(
            cycle_committed(m, cmds, tail_sampled).0,
            cycle_prelude(m, cmds).order,
        ),
    }
}

/// The aggregator: the state of every active trace, by collect id.
pub struct GlobalCollector {
    config: Config,
    active_collectors: HashMap<usize, ActiveCollector>,
    active_order: Vec<usize>,
}

impl GlobalCollector {
    /// The model of the aggregator.
    pub closed spec fn view(&self) -> CollectorModel {
        CollectorModel {
            active: actives_view(self.active_collectors@),
            order: self.active_order@,
        }
    }

    /// The configuration.
    pub closed spec fn spec_config(&self) -> Config {
        self.config
    }

    /// Every active trace is in the walk order.
    pub open spec fn wf(&self) -> bool {
        forall|id: usize| #[trigger] self.view().active.contains_key(id) ==> self.view().order.contains(id)
    }

    /// An aggregator with no active trace.
    pub fn new(config: Config) -> (r: GlobalCollector)
        ensures
            r.wf(),
            r.view().active == Map::<usize, ActiveModel>::empty(),
            r.view().order == Seq::<usize>::empty(),
            r.spec_config() == config,
    {
        let r = GlobalCollector { config, active_collectors: HashMap::new(), active_order: Vec::new() };
        assert(r.view().active =~= Map::<usize, ActiveModel>::empty());
        r
    }

    /// Replaces the configuration; the active traces are kept.
    pub fn set_config(&mut self, config: Config)
        requires
            old(self).wf(),
        ensures
            final(self).wf(),
            final(self).view() == old(self).view(),
            final(self).spec_config() == config,
    {
        self.config = config;
        assert(self.view() == old(self).view());
    }

    /// The configuration.
    pub fn config(&self) -> (r: Config)
        ensures
            r == self.spec_config(),
    {
        self.config
    }
}


/// Whether `id` occurs in `ids`.
fn contains_id(ids: &Vec<usize>, id: usize) -> (r: bool)
    ensures
        r == ids@.contains(id),
{
    let mut i: usize = 0;
    while i < ids.len()
        invariant
            i <= ids@.len(),
            forall|j: int| 0 <= j < i ==> ids@[j] != id,
        decreases ids@.len() - i,
    {
        if ids[i] == id {
            return true;
        }
        i = i + 1;
    }
    false
}

/// The ids started, and the ids dropped or cancelled, by `commands`.
fn start_and_drop_ids(commands: &Vec<CollectCommand>) -> (r: (Vec<usize>, Vec<usize>))
    ensures
        r.0@ == start_ids(commands@),
        r.1@ == drop_ids(commands@),
{
    let mut starts: Vec<usize> = Vec::new();
    let mut drops: Vec<usize> = Vec::new();
    let mut i: usize = 0;
    while i < commands.len()
        invariant
            i <= commands@.len(),
            starts@ == start_ids(commands@.subrange(0, i as int)),
            drops@ == drop_ids(commands@.subrange(0, i as int)),
        decreases commands@.len() - i,
    {
        assert(commands@.subrange(0, i + 1).drop_last() =~= commands@.subrange(0, i as int));
        match &commands[i] {
            CollectCommand::StartCollect(c) => starts.push(c.collect_id),
            CollectCommand::DropCollect(c) => drops.push(c.collect_id),
            CollectCommand::CancelCollect(c) => drops.push(c.collect_id),
            _ => {},
        }
        i = i + 1;
    }
    assert(commands@.subrange(0, i as int) =~= commands@);
    (starts, drops)
}

/// A trace with nothing accumulated.
fn new_active() -> (r: ActiveCollector)
    ensures
        active_model(r) == fresh_active(),
{
    let r = ActiveCollector { span_collections: Vec::new(), danglings: HashMap::new() };
    assert(active_model(r).collections =~= seq![]);
    assert(active_model(r).danglings =~= Map::empty());
    r
}

impl GlobalCollector {
    /// Applies the starts of a cycle.
    fn apply_start_ids(&mut self, ids: &Vec<usize>)
        requires
            old(self).wf(),
        ensures
            final(self).wf(),
            final(self).view() == apply_starts(old(self).view(), ids@),
            final(self).spec_config() == old(self).spec_config(),
    {
        let ghost m0 = self.view();
        let mut i: usize = 0;
        while i < ids.len()
            invariant
                i <= ids@.len(),
                self.wf(),
                self.view() == apply_starts(m0, ids@.subrange(0, i as int)),
                self.spec_config() == old(self).spec_config(),
            decreases ids@.len() - i,
        {
            assert(ids@.subrange(0, i + 1).drop_last() =~= ids@.subrange(0, i as int));
            let id = ids[i];
            let ghost before = self.view();
            if !self.active_collectors.contains_key(&id) {
                self.active_order.push(id);
            }
            self.active_collectors.insert(id, new_active());
            assert(self.view().active =~= before.active.insert(id, fresh_active()));
            assert(self.wf()) by {
                assert forall|k: usize| #[trigger] self.view().active.contains_key(k) implies self.view().order.contains(k) by {
                    if k == id {
                        if !before.active.contains_key(id) {
                            assert(self.view().order.last() == id);
                        }
                    } else {
                        assert(before.order.contains(k));
                        let j = choose|j: int| 0 <= j < before.order.len() && before.order[j] == k;
                        assert(self.view().order[j] == k);
                    }
                }
            }
            i = i + 1;
        }
        assert(ids@.subrange(0, i as int) =~= ids@);
    }

    /// Applies the drops of a cycle.
    fn apply_drop_ids(&mut self, ids: &Vec<usize>)
        requires
            old(self).wf(),
        ensures
            final(self).wf(),
            final(self).view() == apply_drops(old(self).view(), ids@),
            final(self).spec_config() == old(self).spec_config(),
    {
        let ghost m0 = self.view();
        let mut i: usize = 0;
        assert(m0.active.remove_keys(ids@.subrange(0, 0).to_set()) =~= m0.active);
        while i < ids.len()
            invariant
                i <= ids@.len(),
                self.wf(),
                self.view() == apply_drops(m0, ids@.subrange(0, i as int)),
                self.spec_config() == old(self).spec_config(),
            decreases ids@.len() - i,
        {
            let id = ids[i];
            let ghost before = self.view();
            self.active_collectors.remove(&id);
            let ghost s0 = ids@.subrange(0, i as int).to_set();
            assert(ids@.subrange(0, i + 1) =~= ids@.subrange(0, i as int).push(id));
            proof { ids@.subrange(0, i as int).lemma_push_to_set_commute(id); }
            assert(ids@.subrange(0, i + 1).to_set() =~= s0.insert(id));
            assert(self.view().active =~= before.active.remove(id));
            assert(m0.active.remove_keys(s0.insert(id)) =~= m0.active.remove_keys(s0).remove(id));
            assert(self.wf()) by {
                assert forall|k: usize| #[trigger] self.view().active.contains_key(k) implies self.view().order.contains(k) by {
                    assert(before.active.contains_key(k));
                }
            }
            i = i + 1;
        }
        assert(ids@.subrange(0, i as int) =~= ids@);
    }
}


/// Stale fragments grouped by trace id.
type StaleGroups = Vec<(TraceId, Vec<SpanCollection>)>;

/// The model of stale groups.
spec fn groups_view(g: Seq<(TraceId, Vec<SpanCollection>)>) -> Seq<(TraceId, Seq<CollView>)> {
    g.map_values(|p: (TraceId, Vec<SpanCollection>)| (p.0, colls_view(p.1@)))
}

/// Adds a stale fragment to its group, keeping the groups ordered by trace id.
fn add_stale(groups: &mut StaleGroups, c: SpanCollection, Ghost(stale): Ghost<Seq<CollView>>)
    requires
        groups_stale(groups_view(old(groups)@), stale),
    ensures
        groups_stale(groups_view(final(groups)@), stale.push(coll_view(c))),
{
    let ghost x = coll_view(c);
    let ghost g0 = groups_view(groups@);
    let t = c.trace_id();
    let mut i: usize = 0;
    while i < groups.len() && groups[i].0.0 < t.0
        invariant
            i <= groups@.len(),
            g0 == groups_view(groups@),
            forall|j: int| 0 <= j < i ==> (#[trigger] g0[j]).0.0 < t.0,
        decreases groups@.len() - i,
    {
        i = i + 1;
    }
    proof {
        assert forall|k: int| 0 <= k < g0.len() implies #[trigger] stale.push(x).filter(on_trace(g0[k].0))
            == if x.1 == g0[k].0 {
            stale.filter(on_trace(g0[k].0)).push(x)
        } else {
            stale.filter(on_trace(g0[k].0))
        } by {
            stale.lemma_filter_push(x, on_trace(g0[k].0));
        }
        stale.lemma_filter_push(x, on_trace(t));
    }
    if i < groups.len() && groups[i].0.0 == t.0 {
        let mut group: (TraceId, Vec<SpanCollection>) = (t, Vec::new());
        groups.set_and_swap(i, &mut group);
        let ghost old_colls = group.1@;
        group.1.push(c);
        assert(colls_view(group.1@) =~= colls_view(old_colls).push(x));
        groups.set(i, group);
        let ghost g1 = groups_view(groups@);
        assert(g1 =~= g0.update(i as int, (t, g0[i as int].1.push(x))));
        assert(forall|a: int, b: int| 0 <= a < b < g1.len() ==> (#[trigger] g1[a]).0.0 < (
        #[trigger] g1[b]).0.0) by {
            assert forall|a: int, b: int| 0 <= a < b < g1.len() implies (#[trigger] g1[a]).0.0 < (
            #[trigger] g1[b]).0.0 by {
                assert(g1[a].0 == g0[a].0 && g1[b].0 == g0[b].0);
            }
        }
        assert forall|k: int| 0 <= k < g1.len() implies (#[trigger] g1[k]).1 == stale_of(
            stale.push(x),
            g1[k].0,
        ) by {
            if k != i {
                assert(g0[k].0 != t) by {
                    if k < i {
                        assert(g0[k].0.0 < g0[i as int].0.0);
                    } else {
                        assert(g0[i as int].0.0 < g0[k].0.0);
                    }
                }
            }
        }
        assert(groups_stale(g1, stale.push(x))) by {
            assert forall|j: int| 0 <= j < stale.push(x).len() implies has_group(
                g1,
                (#[trigger] stale.push(x)[j]).1,
            ) by {
                if j < stale.len() {
                    assert(stale.push(x)[j] == stale[j]);
                    assert(has_group(g0, stale[j].1));
                    let k = choose|k: int| 0 <= k < g0.len() && (#[trigger] g0[k]).0 == stale[j].1;
                    assert(g1[k].0 == g0[k].0);
                } else {
                    assert(g1[i as int].0 == x.1);
                }
            }
        }
    } else {
        let mut v: Vec<SpanCollection> = Vec::new();
        v.push(c);
        assert(colls_view(v@) =~= seq![x]);
        groups.insert(i, (t, v));
        let ghost g1 = groups_view(groups@);
        assert(g1 =~= g0.insert(i as int, (t, seq![x])));
        assert(i < g0.len() ==> t.0 < g0[i as int].0.0);
        assert(forall|a: int, b: int| 0 <= a < b < g1.len() ==> (#[trigger] g1[a]).0.0 < (
        #[trigger] g1[b]).0.0) by {
            assert forall|a: int, b: int| 0 <= a < b < g1.len() implies (#[trigger] g1[a]).0.0 < (
            #[trigger] g1[b]).0.0 by {
                if b < i {
                    assert(g1[a] == g0[a] && g1[b] == g0[b]);
                } else if b == i {
                    assert(g1[a] == g0[a]);
                } else if a < i {
                    assert(g1[a] == g0[a] && g1[b] == g0[b - 1]);
                    assert(g0[a].0.0 < t.0);
                    assert(g0[i as int].0.0 <= g0[b - 1].0.0);
                } else if a == i {
                    assert(g1[b] == g0[b - 1]);
                    assert(g0[i as int].0.0 <= g0[b - 1].0.0);
                } else {
                    assert(g1[a] == g0[a - 1] && g1[b] == g0[b - 1]);
                }
            }
        }
        proof {
            assert(stale.filter(on_trace(t)) =~= seq![]) by {
                if stale.filter(on_trace(t)).len() > 0 {
                    let e = stale.filter(on_trace(t))[0];
                    stale.lemma_filter_contains_rev(on_trace(t), e);
                    assert(stale.contains(e));
                    let j = choose|j: int| 0 <= j < stale.len() && stale[j] == e;
                    assert(has_group(g0, stale[j].1));
                    let k = choose|k: int| 0 <= k < g0.len() && (#[trigger] g0[k]).0 == stale[j].1;
                    if k < i {
                        assert(g0[k].0.0 < t.0);
                    } else if k == i {
                    } else {
                        assert(g0[i as int].0.0 < g0[k].0.0);
                    }
                }
            }
        }
        assert forall|k: int| 0 <= k < g1.len() implies (#[trigger] g1[k]).1 == stale_of(
            stale.push(x),
            g1[k].0,
        ) by {
            if k < i {
                assert(g1[k] == g0[k]);
                assert(g0[k].0.0 < t.0);
            } else if k > i {
                assert(g1[k] == g0[k - 1]);
                assert(g0[i as int].0.0 <= g0[k - 1].0.0);
            } else {
                assert(seq![x] =~= stale_of(stale, t).push(x));
            }
        }
        assert(groups_stale(g1, stale.push(x))) by {
            assert forall|j: int| 0 <= j < stale.push(x).len() implies has_group(
                g1,
                (#[trigger] stale.push(x)[j]).1,
            ) by {
                if j < stale.len() {
                    assert(stale.push(x)[j] == stale[j]);
                    assert(has_group(g0, stale[j].1));
                    let k = choose|k: int| 0 <= k < g0.len() && (#[trigger] g0[k]).0 == stale[j].1;
                    assert(0 <= k < g0.len() && g0[k].0 == stale[j].1);
                    if k < i {
                        assert(g1[k] == g0[k]);
                        assert(g1[k].0 == stale.push(x)[j].1);
                    } else {
                        assert(g1[k + 1] == g0[k]);
                        assert(g1[k + 1].0 == stale.push(x)[j].1);
                    }
                } else {
                    assert(stale.push(x)[j] == x);
                    assert(g1[i as int].0 == x.1);
                }
            }
        }
    }
}


impl GlobalCollector {
    /// Attaches one fragment to trace `id`, or sets it aside as stale.
    fn attach(
        &mut self,
        groups: &mut StaleGroups,
        c: SpanCollection,
        id: usize,
        drops: &Vec<usize>,
        Ghost(stale): Ghost<Seq<CollView>>,
    )
        requires
            old(self).wf(),
            groups_stale(groups_view(old(groups)@), stale),
        ensures
            final(self).wf(),
            final(self).view().order == old(self).view().order,
            final(self).spec_config() == old(self).spec_config(),
            ({
                let st = submit_to(
                    (old(self).view().active, stale),
                    coll_view(c),
                    id,
                    drops@.to_set(),
                    old(self).spec_config().tail_sampled,
                );
                final(self).view().active == st.0 && groups_stale(groups_view(final(groups)@), st.1)
            }),
    {
        let ghost x = coll_view(c);
        let ghost before = self.view();
        if contains_id(drops, id) {
            assert(drops@.to_set().contains(id));
            return;
        }
        assert(!drops@.to_set().contains(id));
        match self.active_collectors.remove(&id) {
            Some(mut a) => {
                let ghost colls0 = a.span_collections@;
                a.span_collections.push(c);
                assert(colls_view(a.span_collections@) =~= colls_view(colls0).push(x));
                self.active_collectors.insert(id, a);
                assert(self.view().active =~= before.active.insert(
                    id,
                    ActiveModel {
                        collections: before.active[id].collections.push(x),
                        danglings: before.active[id].danglings,
                    },
                ));
                assert(self.wf()) by {
                    assert forall|k: usize| #[trigger] self.view().active.contains_key(k) implies self.view().order.contains(k) by {
                        assert(before.active.contains_key(k));
                    }
                }
            },
            None => {
                assert(self.view().active =~= before.active);
                if !self.config.tail_sampled {
                    add_stale(groups, c, Ghost(stale));
                }
            },
        }
    }

    /// Attaches a submitted fragment to every trace of its token.
    fn submit(
        &mut self,
        groups: &mut StaleGroups,
        sub: SubmitSpans,
        drops: &Vec<usize>,
        Ghost(stale): Ghost<Seq<CollView>>,
    )
        requires
            old(self).wf(),
            groups_stale(groups_view(old(groups)@), stale),
        ensures
            final(self).wf(),
            final(self).view().order == old(self).view().order,
            final(self).spec_config() == old(self).spec_config(),
            ({
                let st = submit_items(
                    (old(self).view().active, stale),
                    sub.spans,
                    sub.collect_token@,
                    drops@.to_set(),
                    old(self).spec_config().tail_sampled,
                );
                final(self).view().active == st.0 && groups_stale(groups_view(final(groups)@), st.1)
            }),
    {
        let ghost spans0 = sub.spans;
        let ghost tail = self.config.tail_sampled;
        let ghost dropped = drops@.to_set();
        let ghost a0 = self.view().active;
        let SubmitSpans { spans, collect_token } = sub;
        if collect_token.len() == 1 {
            let item = collect_token[0];
            assert(collect_token@.drop_last() =~= seq![]);
            assert(collect_token@.last() == item);
            assert(submit_items((a0, stale), spans0, collect_token@.drop_last(), dropped, tail) == (
            a0, stale));
            let c = SpanCollection::Owned { spans, trace_id: item.trace_id, parent_id: item.parent_id };
            assert(coll_view(c) == (spans0, item.trace_id, item.parent_id));
            self.attach(groups, c, item.collect_id, drops, Ghost(stale));
            assert(submit_items((a0, stale), spans0, collect_token@, dropped, tail) == submit_item(
                (a0, stale),
                spans0,
                item,
                dropped,
                tail,
            ));
        } else {
            let shared = Arc::new(spans);
            let ghost mut st: SubmitState = (a0, stale);
            let mut i: usize = 0;
            while i < collect_token.len()
                invariant
                    i <= collect_token@.len(),
                    self.wf(),
                    self.view().order == old(self).view().order,
                    self.spec_config() == old(self).spec_config(),
                    tail == self.spec_config().tail_sampled,
                    dropped == drops@.to_set(),
                    *shared == spans0,
                    st == submit_items(
                        (a0, stale),
                        spans0,
                        collect_token@.subrange(0, i as int),
                        dropped,
                        tail,
                    ),
                    self.view().active == st.0,
                    groups_stale(groups_view(groups@), st.1),
                decreases collect_token@.len() - i,
            {
                let item = collect_token[i];
                let c = SpanCollection::Shared {
                    spans: shared.clone(),
                    trace_id: item.trace_id,
                    parent_id: item.parent_id,
                };
                assert(coll_view(c) == (spans0, item.trace_id, item.parent_id));
                self.attach(groups, c, item.collect_id, drops, Ghost(st.1));
                proof {
                    assert(collect_token@.subrange(0, i + 1).drop_last() =~= collect_token@.subrange(
                        0,
                        i as int,
                    ));
                    st = submit_item(st, spans0, item, dropped, tail);
                }
                i = i + 1;
            }
            assert(collect_token@.subrange(0, i as int) =~= collect_token@);
        }
    }

    /// Applies the commits of a cycle; the committed records go to `out`.
    fn commit_phase(&mut self, ids: &Vec<usize>, out: &mut Vec<SpanRecord>)
        requires
            old(self).wf(),
        ensures
            final(self).wf(),
            final(self).view().order == old(self).view().order,
            final(self).spec_config() == old(self).spec_config(),
            final(self).view().active == apply_commits(old(self).view().active, ids@).0,
            records_view(final(out)@) == records_view(old(out)@) + apply_commits(
                old(self).view().active,
                ids@,
            ).1,
    {
        let ghost a0 = self.view().active;
        let ghost o0 = records_view(out@);
        let mut i: usize = 0;
        assert(o0 + seq![] =~= o0);
        while i < ids.len()
            invariant
                i <= ids@.len(),
                self.wf(),
                self.view().order == old(self).view().order,
                self.spec_config() == old(self).spec_config(),
                self.view().active == apply_commits(a0, ids@.subrange(0, i as int)).0,
                records_view(out@) == o0 + apply_commits(a0, ids@.subrange(0, i as int)).1,
            decreases ids@.len() - i,
        {
            assert(ids@.subrange(0, i + 1).drop_last() =~= ids@.subrange(0, i as int));
            let id = ids[i];
            let ghost before = self.view();
            match self.active_collectors.remove(&id) {
                Some(mut a) => {
                    let ghost m = active_model(a);
                    assert(m == before.active[id]);
                    postprocess_span_collection(&a.span_collections, out, &mut a.danglings);
                    assert(self.view().active =~= before.active.remove(id));
                    assert(self.wf()) by {
                        assert forall|k: usize| #[trigger] self.view().active.contains_key(k) implies self.view().order.contains(k) by {
                            assert(before.active.contains_key(k));
                        }
                    }
                },
                None => {
                    assert(self.view().active =~= before.active);
                },
            }
            i = i + 1;
        }
        assert(ids@.subrange(0, i as int) =~= ids@);
    }

    /// Walks the active traces in order. With `emit`, each one emits what it
    /// has to `out` and starts over with no fragments, keeping its pending
    /// items. Either way the walk order keeps only the active ids.
    fn flush_phase(&mut self, emit: bool, out: &mut Vec<SpanRecord>)
        requires
            old(self).wf(),
        ensures
            final(self).wf(),
            final(self).spec_config() == old(self).spec_config(),
            final(self).view().order == live_order(old(self).view().active, old(self).view().order),
            emit ==> final(self).view().active == flush_active(
                old(self).view().active,
                old(self).view().order,
            ).0,
            emit ==> records_view(final(out)@) == records_view(old(out)@) + flush_active(
                old(self).view().active,
                old(self).view().order,
            ).1,
            !emit ==> final(self).view().active == old(self).view().active,
            !emit ==> final(out)@ == old(out)@,
    {
        let ghost a0 = self.view().active;
        let ghost order0 = self.view().order;
        let ghost o0 = records_view(out@);
        let ghost out0 = out@;
        let mut new_order: Vec<usize> = Vec::new();
        let mut i: usize = 0;
        assert(o0 + seq![] =~= o0);
        proof {
            reveal(Seq::filter);
        }
        assert(order0.subrange(0, 0).filter(is_live(a0)) =~= seq![]);
        while i < self.active_order.len()
            invariant
                i <= self.active_order@.len(),
                self.active_order@ == order0,
                self.spec_config() == old(self).spec_config(),
                forall|k: usize| a0.contains_key(k) <==> #[trigger] self.view().active.contains_key(k),
                new_order@ == live_order(a0, order0.subrange(0, i as int)),
                emit ==> self.view().active == flush_active(a0, order0.subrange(0, i as int)).0,
                emit ==> records_view(out@) == o0 + flush_active(a0, order0.subrange(0, i as int)).1,
                !emit ==> self.view().active == a0,
                !emit ==> out@ == out0,
            decreases order0.len() - i,
        {
            let id = self.active_order[i];
            let ghost before = self.view();
            let ghost prefix = order0.subrange(0, i as int);
            assert(order0.subrange(0, i + 1) =~= prefix.push(id));
            assert(prefix.push(id).drop_last() =~= prefix);
            proof {
                prefix.lemma_filter_push(id, is_live(a0));
            }
            assert(is_live(a0)(id) == a0.contains_key(id));
            let ghost no0 = new_order@;
            let live = self.active_collectors.contains_key(&id);
            assert(live == self.view().active.contains_key(id));
            assert(live == a0.contains_key(id));
            if live {
                new_order.push(id);
                assert(new_order@ == live_order(a0, prefix.push(id)));
                if emit {
                    match self.active_collectors.remove(&id) {
                        Some(mut a) => {
                            let ghost m = active_model(a);
                            assert(m == before.active[id]);
                            postprocess_span_collection(&a.span_collections, out, &mut a.danglings);
                            a.span_collections = Vec::new();
                            assert(colls_view(a.span_collections@) =~= seq![]);
                            self.active_collectors.insert(id, a);
                            assert(self.view().active =~= before.active.insert(
                                id,
                                ActiveModel {
                                    collections: seq![],
                                    danglings: postprocess(m.collections, m.danglings).1,
                                },
                            ));
                        },
                        None => {},
                    }
                }
            } else {
                assert(new_order@ == live_order(a0, prefix.push(id)));
            }
            i = i + 1;
        }
        assert(order0.subrange(0, i as int) =~= order0);
        self.active_order = new_order;
        assert(self.wf()) by {
            assert forall|k: usize| #[trigger] self.view().active.contains_key(k) implies self.view().order.contains(k) by {
                assert(a0.contains_key(k));
                assert(order0.contains(k));
                order0.lemma_filter_contains_rev(is_live(a0), k);
            }
        }
    }
}

/// Reassembles each group of stale fragments on its own, in group order.
fn report_stale(groups: &StaleGroups, out: &mut Vec<SpanRecord>)
    ensures
        records_view(final(out)@) == records_view(old(out)@) + stale_output(groups_view(groups@)),
{
    let ghost o0 = records_view(out@);
    let mut i: usize = 0;
    assert(o0 + seq![] =~= o0);
    while i < groups.len()
        invariant
            i <= groups@.len(),
            records_view(out@) == o0 + stale_output(groups_view(groups@.subrange(0, i as int))),
        decreases groups@.len() - i,
    {
        let mut danglings: Danglings = HashMap::new();
        assert(danglings_view(danglings@) =~= Map::empty());
        postprocess_span_collection(&groups[i].1, out, &mut danglings);
        assert(groups_view(groups@.subrange(0, i + 1)).drop_last() =~= groups_view(
            groups@.subrange(0, i as int),
        ));
        assert(groups_view(groups@.subrange(0, i + 1)).last() == groups_view(groups@)[i as int]);
        i = i + 1;
    }
    assert(groups@.subrange(0, i as int) =~= groups@);
}


impl GlobalCollector {
    /// Runs one aggregation cycle over the commands drained from the
    /// producers, and returns the finished records of the cycle: committed
    /// traces, then (without tail sampling) what the active traces have so
    /// far, then the stale fragments reassembled by trace id.
    pub fn handle_commands(&mut self, commands: Vec<CollectCommand>) -> (r: Vec<SpanRecord>)
        requires
            old(self).wf(),
        ensures
            final(self).wf(),
            final(self).spec_config() == old(self).spec_config(),
            final(self).view() == cycle_state(
                old(self).view(),
                commands@,
                old(self).spec_config().tail_sampled,
            ),
            exists|groups: Seq<(TraceId, Seq<CollView>)>|
                groups_stale(
                    groups,
                    #[trigger] cycle_submitted(
                        old(self).view(),
                        commands@,
                        old(self).spec_config().tail_sampled,
                    ).1,
                ) && records_view(r@) == cycle_flushed(
                    old(self).view(),
                    commands@,
                    old(self).spec_config().tail_sampled,
                ).1 + stale_output(groups),
    {
        let ghost m0 = self.view();
        let ghost cmds = commands@;
        let tail = self.config.tail_sampled;
        let (starts, drops) = start_and_drop_ids(&commands);
        self.apply_start_ids(&starts);
        self.apply_drop_ids(&drops);
        let ghost m1 = self.view();
        assert(m1 == cycle_prelude(m0, cmds));
        let ghost dropped = drops@.to_set();

        let mut commands = commands;
        let n = commands.len();
        let mut rev: Vec<CollectCommand> = Vec::new();
        while commands.len() > 0
            invariant
                commands@.len() + rev@.len() == n,
                cmds.len() == n,
                commands@ == cmds.subrange(0, commands@.len() as int),
                forall|j: int| 0 <= j < rev@.len() ==> #[trigger] rev@[j] == cmds[n - 1 - j],
            decreases commands@.len(),
        {
            match commands.pop() {
                Some(c) => {
                    rev.push(c);
                },
                None => {},
            }
        }

        let mut groups: StaleGroups = Vec::new();
        let mut commits: Vec<usize> = Vec::new();
        let ghost mut st: SubmitState = (m1.active, seq![]);
        let mut p: usize = 0;
        assert(groups_stale(groups_view(groups@), st.1));
        assert(cmds.subrange(0, 0) =~= seq![]);
        while rev.len() > 0
            invariant
                rev@.len() + p == n,
                cmds.len() == n,
                forall|j: int| 0 <= j < rev@.len() ==> #[trigger] rev@[j] == cmds[n - 1 - j],
                self.wf(),
                self.view().order == m1.order,
                self.spec_config() == old(self).spec_config(),
                tail == self.spec_config().tail_sampled,
                dropped == drops@.to_set(),
                st == apply_submits(
                    (m1.active, seq![]),
                    submits_of(cmds.subrange(0, p as int)),
                    dropped,
                    tail,
                ),
                self.view().active == st.0,
                groups_stale(groups_view(groups@), st.1),
                commits@ == commit_ids(cmds.subrange(0, p as int)),
            decreases rev@.len(),
        {
            let ghost k = rev@.len() - 1;
            match rev.pop() {
                Some(cmd) => {
                    assert(cmd == cmds[p as int]);
                    assert(cmds.subrange(0, p + 1).drop_last() =~= cmds.subrange(0, p as int));
                    match cmd {
                        CollectCommand::SubmitSpans(sub) => {
                            let ghost sub0 = sub;
                            let ghost subs = submits_of(cmds.subrange(0, p as int));
                            assert(submits_of(cmds.subrange(0, p + 1)) == subs.push(sub0));
                            assert(subs.push(sub0).drop_last() =~= subs);
                            self.submit(&mut groups, sub, &drops, Ghost(st.1));
                            proof {
                                st = submit_items(st, sub0.spans, sub0.collect_token@, dropped, tail);
                            }
                        },
                        CollectCommand::CommitCollect(c) => {
                            assert(submits_of(cmds.subrange(0, p + 1)) == submits_of(
                                cmds.subrange(0, p as int),
                            ));
                            commits.push(c.collect_id);
                        },
                        _ => {
                            assert(submits_of(cmds.subrange(0, p + 1)) == submits_of(
                                cmds.subrange(0, p as int),
                            ));
                        },
                    }
                    p = p + 1;
                },
                None => {},
            }
        }
        assert(cmds.subrange(0, p as int) =~= cmds);
        assert(st == cycle_submitted(m0, cmds, tail));
        let ghost stale = st.1;

        let mut records: Vec<SpanRecord> = Vec::new();
        assert(records_view(records@) =~= seq![]);
        self.commit_phase(&commits, &mut records);
        assert(records_view(records@) =~= cycle_committed(m0, cmds, tail).1);
        self.flush_phase(!tail, &mut records);
        assert(records_view(records@) == cycle_flushed(m0, cmds, tail).1);
        report_stale(&groups, &mut records);
        assert(groups_stale(groups_view(groups@), cycle_submitted(m0, cmds, tail).1));
        records
    }
}


proof fn lemma_flush_inactive(active: Map<usize, ActiveModel>, order: Seq<usize>)
    requires
        forall|i: int| 0 <= i < order.len() ==> !active.contains_key(#[trigger] order[i]),
    ensures
        flush_active(active, order) == (active, Seq::<SpanRecordView>::empty()),
    decreases order.len(),
{
    if order.len() > 0 {
        lemma_flush_inactive(active, order.drop_last());
    }
}

/// Committing a trace a second time does nothing: it is no longer active.
pub proof fn lemma_commit_twice(active: Map<usize, ActiveModel>, ids: Seq<usize>, id: usize)
    ensures
        apply_commits(active, ids.push(id).push(id)) == apply_commits(active, ids.push(id)),
{
    assert(ids.push(id).push(id).drop_last() =~= ids.push(id));
    assert(ids.push(id).drop_last() =~= ids);
}

/// Issuing a drop, a cancel or a commit of the same trace twice in a cycle has
/// the same effect as issuing it once: same end state, same records, same
/// stale fragments.
pub proof fn lemma_teardown_idempotent(
    m: CollectorModel,
    cmds: Seq<CollectCommand>,
    c: CollectCommand,
    tail_sampled: bool,
)
    requires
        c is DropCollect || c is CancelCollect || c is CommitCollect,
    ensures
        cycle_state(m, cmds.push(c).push(c), tail_sampled) == cycle_state(m, cmds.push(c), tail_sampled),
        cycle_flushed(m, cmds.push(c).push(c), tail_sampled) == cycle_flushed(
            m,
            cmds.push(c),
            tail_sampled,
        ),
        cycle_submitted(m, cmds.push(c).push(c), tail_sampled) == cycle_submitted(
            m,
            cmds.push(c),
            tail_sampled,
        ),
{
    let c1 = cmds.push(c);
    let c2 = c1.push(c);
    assert(c2.drop_last() =~= c1);
    assert(c1.drop_last() =~= cmds);
    assert(start_ids(c2) == start_ids(c1));
    assert(submits_of(c2) == submits_of(c1));
    match c {
        CollectCommand::CommitCollect(cc) => {
            assert(drop_ids(c2) == drop_ids(c1));
            lemma_commit_twice(
                cycle_submitted(m, c1, tail_sampled).0,
                commit_ids(cmds),
                cc.collect_id,
            );
        },
        _ => {
            let id = match c {
                CollectCommand::DropCollect(d) => d.collect_id,
                CollectCommand::CancelCollect(d) => d.collect_id,
                _ => 0,
            };
            assert(drop_ids(c1) == drop_ids(cmds).push(id));
            assert(drop_ids(c2) == drop_ids(c1).push(id));
            drop_ids(c1).lemma_push_to_set_commute(id);
            drop_ids(cmds).lemma_push_to_set_commute(id);
            assert(drop_ids(c2).to_set() =~= drop_ids(c1).to_set());
            assert(commit_ids(c2) == commit_ids(c1));
        },
    }
}

/// One fragment attached under two traces is reassembled in full under each:
/// when both traces are committed, the records are those of the fragment
/// under the first trace, then those of the same fragment under the second.
pub proof fn lemma_fan_out(
    m: CollectorModel,
    sub: SubmitSpans,
    x: CollectTokenItem,
    y: CollectTokenItem,
    tail_sampled: bool,
)
    requires
        x.collect_id != y.collect_id,
        sub.collect_token@ == seq![x, y],
        m.active.dom() == set![x.collect_id, y.collect_id],
        m.active[x.collect_id] == fresh_active(),
        m.active[y.collect_id] == fresh_active(),
    ensures
        ({
            let cmds = seq![
                CollectCommand::SubmitSpans(sub),
                CollectCommand::CommitCollect(CommitCollect { collect_id: x.collect_id }),
                CollectCommand::CommitCollect(CommitCollect { collect_id: y.collect_id }),
            ];
            &&& cycle_flushed(m, cmds, tail_sampled).1 == postprocess(
                seq![(sub.spans, x.trace_id, x.parent_id)],
                Map::empty(),
            ).0 + postprocess(seq![(sub.spans, y.trace_id, y.parent_id)], Map::empty()).0
            &&& cycle_submitted(m, cmds, tail_sampled).1 == Seq::<CollView>::empty()
            &&& cycle_state(m, cmds, tail_sampled).active == Map::<usize, ActiveModel>::empty()
        }),
{
    reveal_with_fuel(start_ids, 4);
    reveal_with_fuel(drop_ids, 4);
    reveal_with_fuel(commit_ids, 4);
    reveal_with_fuel(submits_of, 4);
    reveal_with_fuel(apply_submits, 2);
    reveal_with_fuel(submit_items, 3);
    reveal_with_fuel(apply_commits, 3);
    reveal(Seq::filter);
    let cmds = seq![
        CollectCommand::SubmitSpans(sub),
        CollectCommand::CommitCollect(CommitCollect { collect_id: x.collect_id }),
        CollectCommand::CommitCollect(CommitCollect { collect_id: y.collect_id }),
    ];
    let (ix, iy) = (x.collect_id, y.collect_id);
    assert(cmds.drop_last().drop_last().drop_last() =~= seq![]);
    assert(start_ids(cmds) =~= seq![]);
    assert(drop_ids(cmds) =~= seq![]);
    assert(commit_ids(cmds) =~= seq![ix, iy]);
    assert(submits_of(cmds) =~= seq![sub]);
    let m1 = cycle_prelude(m, cmds);
    assert(m1.active =~= m.active);
    assert(seq![sub].drop_last() =~= seq![]);
    assert(seq![x, y].drop_last() =~= seq![x]);
    assert(seq![x].drop_last() =~= seq![]);
    let cx = (sub.spans, x.trace_id, x.parent_id);
    let cy = (sub.spans, y.trace_id, y.parent_id);
    let e: DanglingMap = Map::empty();
    let s = cycle_submitted(m, cmds, tail_sampled);
    assert(s.1 =~= seq![]);
    assert(s.0[ix] == ActiveModel { collections: seq![cx], danglings: e });
    assert(s.0[iy] == ActiveModel { collections: seq![cy], danglings: e });
    assert(s.0.dom() =~= set![ix, iy]);
    assert(seq![ix, iy].drop_last() =~= seq![ix]);
    assert(seq![ix].drop_last() =~= seq![]);
    let c = cycle_committed(m, cmds, tail_sampled);
    assert(c.0 =~= Map::<usize, ActiveModel>::empty());
    assert(c.1 =~= postprocess(seq![cx], e).0 + postprocess(seq![cy], e).0);
    lemma_flush_inactive(c.0, m1.order);
    assert(c.1 + Seq::<SpanRecordView>::empty() =~= c.1);
}

/// A trace dropped in a cycle yields no record, neither from what it had
/// accumulated nor from fragments submitted for it in the same cycle, while a
/// sibling trace committed in the same cycle is reassembled in full.
pub proof fn lemma_drop_suppresses(
    m: CollectorModel,
    sx: SubmitSpans,
    sy: SubmitSpans,
    x: CollectTokenItem,
    y: CollectTokenItem,
    tail_sampled: bool,
)
    requires
        x.collect_id != y.collect_id,
        sx.collect_token@ == seq![x],
        sy.collect_token@ == seq![y],
        m.active.dom() == set![x.collect_id, y.collect_id],
    ensures
        ({
            let cmds = seq![
                CollectCommand::SubmitSpans(sx),
                CollectCommand::SubmitSpans(sy),
                CollectCommand::DropCollect(DropCollect { collect_id: x.collect_id }),
                CollectCommand::CommitCollect(CommitCollect { collect_id: y.collect_id }),
            ];
            let ay = m.active[y.collect_id];
            &&& cycle_flushed(m, cmds, tail_sampled).1 == postprocess(
                ay.collections.push((sy.spans, y.trace_id, y.parent_id)),
                ay.danglings,
            ).0
            &&& cycle_submitted(m, cmds, tail_sampled).1 == Seq::<CollView>::empty()
            &&& cycle_state(m, cmds, tail_sampled).active == Map::<usize, ActiveModel>::empty()
        }),
{
    reveal_with_fuel(start_ids, 5);
    reveal_with_fuel(drop_ids, 5);
    reveal_with_fuel(commit_ids, 5);
    reveal_with_fuel(submits_of, 5);
    reveal_with_fuel(apply_submits, 3);
    reveal_with_fuel(submit_items, 2);
    reveal_with_fuel(apply_commits, 2);
    let cmds = seq![
        CollectCommand::SubmitSpans(sx),
        CollectCommand::SubmitSpans(sy),
        CollectCommand::DropCollect(DropCollect { collect_id: x.collect_id }),
        CollectCommand::CommitCollect(CommitCollect { collect_id: y.collect_id }),
    ];
    let (ix, iy) = (x.collect_id, y.collect_id);
    assert(cmds.drop_last().drop_last().drop_last().drop_last() =~= seq![]);
    assert(start_ids(cmds) =~= seq![]);
    assert(drop_ids(cmds) =~= seq![ix]);
    assert(commit_ids(cmds) =~= seq![iy]);
    assert(submits_of(cmds) =~= seq![sx, sy]);
    let m1 = cycle_prelude(m, cmds);
    Seq::<usize>::empty().lemma_push_to_set_commute(ix);
    assert(Seq::<usize>::empty().to_set() =~= Set::<usize>::empty());
    assert(seq![ix] =~= Seq::<usize>::empty().push(ix));
    assert(seq![ix].to_set() =~= set![ix]);
    assert(m1.active =~= m.active.remove(ix));
    assert(seq![sx, sy].drop_last() =~= seq![sx]);
    assert(seq![sx].drop_last() =~= seq![]);
    assert(seq![x].drop_last() =~= seq![]);
    assert(seq![y].drop_last() =~= seq![]);
    let cy = (sy.spans, y.trace_id, y.parent_id);
    let ay = m.active[iy];
    let s = cycle_submitted(m, cmds, tail_sampled);
    assert(s.1 =~= seq![]);
    assert(s.0 =~= m1.active.insert(iy, ActiveModel { collections: ay.collections.push(cy), danglings: ay.danglings }));
    assert(seq![iy].drop_last() =~= seq![]);
    let c = cycle_committed(m, cmds, tail_sampled);
    assert(c.0 =~= Map::<usize, ActiveModel>::empty());
    assert(c.1 =~= postprocess(ay.collections.push(cy), ay.danglings).0);
    lemma_flush_inactive(c.0, m1.order);
    assert(c.1 + Seq::<SpanRecordView>::empty() =~= c.1);
}

proof fn lemma_starts_dom(m: CollectorModel, ids: Seq<usize>, k: usize)
    ensures
        apply_starts(m, ids).active.contains_key(k) <==> (m.active.contains_key(k) || ids.contains(k)),
    decreases ids.len(),
{
    if ids.len() > 0 {
        lemma_starts_dom(m, ids.drop_last(), k);
        if ids.drop_last().contains(k) {
            let j = choose|j: int| 0 <= j < ids.drop_last().len() && ids.drop_last()[j] == k;
            assert(ids[j] == k);
        }
        if ids.contains(k) && ids.last() != k {
            let j = choose|j: int| 0 <= j < ids.len() && ids[j] == k;
            assert(ids.drop_last()[j] == k);
        }
    }
}

proof fn lemma_submit_items_dom(
    st: SubmitState,
    spans: SpanSet,
    items: Seq<CollectTokenItem>,
    dropped: Set<usize>,
    tail_sampled: bool,
)
    ensures
        submit_items(st, spans, items, dropped, tail_sampled).0.dom() == st.0.dom(),
    decreases items.len(),
{
    if items.len() > 0 {
        lemma_submit_items_dom(st, spans, items.drop_last(), dropped, tail_sampled);
        let p = submit_items(st, spans, items.drop_last(), dropped, tail_sampled);
        let q = submit_item(p, spans, items.last(), dropped, tail_sampled);
        assert(q.0.dom() =~= p.0.dom());
    }
}

proof fn lemma_submits_dom(
    st: SubmitState,
    subs: Seq<SubmitSpans>,
    dropped: Set<usize>,
    tail_sampled: bool,
)
    ensures
        apply_submits(st, subs, dropped, tail_sampled).0.dom() == st.0.dom(),
    decreases subs.len(),
{
    if subs.len() > 0 {
        lemma_submits_dom(st, subs.drop_last(), dropped, tail_sampled);
        let p = apply_submits(st, subs.drop_last(), dropped, tail_sampled);
        lemma_submit_items_dom(p, subs.last().spans, subs.last().collect_token@, dropped, tail_sampled);
    }
}

proof fn lemma_commits_dom(active: Map<usize, ActiveModel>, ids: Seq<usize>, k: usize)
    ensures
        apply_commits(active, ids).0.contains_key(k) <==> (active.contains_key(k) && !ids.contains(k)),
    decreases ids.len(),
{
    if ids.len() > 0 {
        lemma_commits_dom(active, ids.drop_last(), k);
        if ids.drop_last().contains(k) {
            let j = choose|j: int| 0 <= j < ids.drop_last().len() && ids.drop_last()[j] == k;
            assert(ids[j] == k);
        }
        if ids.contains(k) && ids.last() != k {
            let j = choose|j: int| 0 <= j < ids.len() && ids[j] == k;
            assert(ids.drop_last()[j] == k);
        }
    }
}

proof fn lemma_flush_dom(active: Map<usize, ActiveModel>, order: Seq<usize>)
    ensures
        flush_active(active, order).0.dom() == active.dom(),
    decreases order.len(),
{
    if order.len() > 0 {
        lemma_flush_dom(active, order.drop_last());
        let p = flush_active(active, order.drop_last());
        let id = order.last();
        if p.0.contains_key(id) {
            let r = postprocess(p.0[id].collections, p.0[id].danglings);
            assert(p.0.insert(id, ActiveModel { collections: seq![], danglings: r.1 }).dom() =~= p.0.dom());
        }
    }
}

/// The traces active at the end of a cycle: those active before or started
/// in it, less those dropped or committed in it.
pub proof fn lemma_cycle_active(
    m: CollectorModel,
    cmds: Seq<CollectCommand>,
    tail_sampled: bool,
    k: usize,
)
    ensures
        cycle_state(m, cmds, tail_sampled).active.contains_key(k) <==> ((m.active.contains_key(k)
            || start_ids(cmds).contains(k)) && !drop_ids(cmds).contains(k) && !commit_ids(
            cmds,
        ).contains(k)),
{
    let m0 = apply_starts(m, start_ids(cmds));
    lemma_starts_dom(m, start_ids(cmds), k);
    let m1 = cycle_prelude(m, cmds);
    assert(m1.active.contains_key(k) <==> (m0.active.contains_key(k) && !drop_ids(cmds).contains(k)));
    lemma_submits_dom((m1.active, seq![]), submits_of(cmds), drop_ids(cmds).to_set(), tail_sampled);
    let s = cycle_submitted(m, cmds, tail_sampled);
    assert(s.0.contains_key(k) == m1.active.contains_key(k));
    lemma_commits_dom(s.0, commit_ids(cmds), k);
    let c = cycle_committed(m, cmds, tail_sampled);
    lemma_flush_dom(c.0, m1.order);
    assert(cycle_state(m, cmds, tail_sampled).active.contains_key(k) == c.0.contains_key(k));
}

/// A dropped or committed trace is no longer active after its cycle.
pub proof fn lemma_teardown_ends_trace(
    m: CollectorModel,
    cmds: Seq<CollectCommand>,
    tail_sampled: bool,
    k: usize,
)
    requires
        drop_ids(cmds).contains(k) || commit_ids(cmds).contains(k),
    ensures
        !cycle_state(m, cmds, tail_sampled).active.contains_key(k),
{
    lemma_cycle_active(m, cmds, tail_sampled, k);
}

/// A commit of a trace that is not active and not started in the cycle,
/// such as a repeated commit in a later cycle, changes nothing: same end
/// state, same records, same stale fragments.
pub proof fn lemma_commit_inactive_noop(
    m: CollectorModel,
    cmds: Seq<CollectCommand>,
    tail_sampled: bool,
    k: usize,
)
    requires
        !m.active.contains_key(k),
        !start_ids(cmds).contains(k),
    ensures
        ({
            let c2 = cmds.push(CollectCommand::CommitCollect(CommitCollect { collect_id: k }));
            &&& cycle_state(m, c2, tail_sampled) == cycle_state(m, cmds, tail_sampled)
            &&& cycle_flushed(m, c2, tail_sampled) == cycle_flushed(m, cmds, tail_sampled)
            &&& cycle_submitted(m, c2, tail_sampled) == cycle_submitted(m, cmds, tail_sampled)
        }),
{
    let c2 = cmds.push(CollectCommand::CommitCollect(CommitCollect { collect_id: k }));
    assert(c2.drop_last() =~= cmds);
    assert(start_ids(c2) == start_ids(cmds));
    assert(drop_ids(c2) == drop_ids(cmds));
    assert(submits_of(c2) == submits_of(cmds));
    assert(commit_ids(c2) == commit_ids(cmds).push(k));
    assert(commit_ids(c2).drop_last() =~= commit_ids(cmds));
    lemma_starts_dom(m, start_ids(cmds), k);
    let m1 = cycle_prelude(m, cmds);
    lemma_submits_dom((m1.active, seq![]), submits_of(cmds), drop_ids(cmds).to_set(), tail_sampled);
    let s = cycle_submitted(m, cmds, tail_sampled);
    lemma_commits_dom(s.0, commit_ids(cmds), k);
}

/// A drop of a trace that is not active, not started in the cycle and named
/// by no fragment submitted in it, such as a repeated drop in a later cycle,
/// changes nothing.
pub proof fn lemma_drop_inactive_noop(
    m: CollectorModel,
    cmds: Seq<CollectCommand>,
    tail_sampled: bool,
    k: usize,
)
    requires
        !m.active.contains_key(k),
        !start_ids(cmds).contains(k),
        forall|i: int, j: int|
            0 <= i < submits_of(cmds).len() && 0 <= j < submits_of(cmds)[i].collect_token@.len()
                ==> (#[trigger] submits_of(cmds)[i].collect_token@[j]).collect_id != k,
    ensures
        ({
            let c2 = cmds.push(CollectCommand::DropCollect(DropCollect { collect_id: k }));
            &&& cycle_state(m, c2, tail_sampled) == cycle_state(m, cmds, tail_sampled)
            &&& cycle_flushed(m, c2, tail_sampled) == cycle_flushed(m, cmds, tail_sampled)
            &&& cycle_submitted(m, c2, tail_sampled) == cycle_submitted(m, cmds, tail_sampled)
        }),
{
    let c2 = cmds.push(CollectCommand::DropCollect(DropCollect { collect_id: k }));
    assert(c2.drop_last() =~= cmds);
    assert(start_ids(c2) == start_ids(cmds));
    assert(commit_ids(c2) == commit_ids(cmds));
    assert(submits_of(c2) == submits_of(cmds));
    assert(drop_ids(c2) == drop_ids(cmds).push(k));
    drop_ids(cmds).lemma_push_to_set_commute(k);
    lemma_starts_dom(m, start_ids(cmds), k);
    let m0 = apply_starts(m, start_ids(cmds));
    assert(!m0.active.contains_key(k));
    let d1 = drop_ids(cmds).to_set();
    let d2 = drop_ids(c2).to_set();
    assert(m0.active.remove_keys(d2) =~= m0.active.remove_keys(d1));
    assert(cycle_prelude(m, c2) == cycle_prelude(m, cmds));
    let m1 = cycle_prelude(m, cmds);
    lemma_submits_ignore_id((m1.active, seq![]), submits_of(cmds), d1, k, tail_sampled);
}

proof fn lemma_submits_ignore_id(
    st: SubmitState,
    subs: Seq<SubmitSpans>,
    dropped: Set<usize>,
    k: usize,
    tail_sampled: bool,
)
    requires
        forall|i: int, j: int|
            0 <= i < subs.len() && 0 <= j < subs[i].collect_token@.len()
                ==> (#[trigger] subs[i].collect_token@[j]).collect_id != k,
    ensures
        apply_submits(st, subs, dropped.insert(k), tail_sampled) == apply_submits(
            st,
            subs,
            dropped,
            tail_sampled,
        ),
    decreases subs.len(),
{
    if subs.len() > 0 {
        assert forall|i: int, j: int|
            0 <= i < subs.drop_last().len() && 0 <= j < subs.drop_last()[i].collect_token@.len()
                implies (#[trigger] subs.drop_last()[i].collect_token@[j]).collect_id != k by {
            assert(subs.drop_last()[i] == subs[i]);
        }
        lemma_submits_ignore_id(st, subs.drop_last(), dropped, k, tail_sampled);
        let p = apply_submits(st, subs.drop_last(), dropped, tail_sampled);
        let last = subs.last();
        assert forall|j: int| 0 <= j < last.collect_token@.len() implies (
        #[trigger] last.collect_token@[j]).collect_id != k by {
            assert(subs[subs.len() - 1] == last);
        }
        lemma_items_ignore_id(p, last.spans, last.collect_token@, dropped, k, tail_sampled);
    }
}

proof fn lemma_items_ignore_id(
    st: SubmitState,
    spans: SpanSet,
    items: Seq<CollectTokenItem>,
    dropped: Set<usize>,
    k: usize,
    tail_sampled: bool,
)
    requires
        forall|j: int| 0 <= j < items.len() ==> (#[trigger] items[j]).collect_id != k,
    ensures
        submit_items(st, spans, items, dropped.insert(k), tail_sampled) == submit_items(
            st,
            spans,
            items,
            dropped,
            tail_sampled,
        ),
    decreases items.len(),
{
    if items.len() > 0 {
        lemma_items_ignore_id(st, spans, items.drop_last(), dropped, k, tail_sampled);
        assert(items.last().collect_id != k);
    }
}

/// A trace whose root span and one nested fragment (`a` holding `c`, then
/// `b`, under the root) are submitted and committed in one cycle is rebuilt
/// as exactly four records, each under the parent its nesting gives:
/// root under no parent, `a` and `b` under the root, `c` under `a`.
pub proof fn lemma_tree_rebuilt(
    m: CollectorModel,
    k: usize,
    sr: SubmitSpans,
    sl: SubmitSpans,
    l: LocalSpansInner,
    tail_sampled: bool,
)
    requires
        m.active == Map::<usize, ActiveModel>::empty(),
        sr.spans matches SpanSet::Span(root) && root.raw_kind == RawKind::Span,
        sr.collect_token@.len() == 1,
        sr.collect_token@[0].collect_id == k,
        sr.collect_token@[0].parent_id == SpanId(0),
        sl.spans == SpanSet::LocalSpansInner(l),
        sl.collect_token@.len() == 1,
        sl.collect_token@[0].collect_id == k,
        sl.collect_token@[0].trace_id == sr.collect_token@[0].trace_id,
        l.spans@.len() == 3,
        l.spans@[0].raw_kind == RawKind::Span,
        l.spans@[1].raw_kind == RawKind::Span,
        l.spans@[2].raw_kind == RawKind::Span,
        l.spans@[0].parent_id.is_none(),
        l.spans@[1].parent_id == Some(l.spans@[0].id),
        l.spans@[2].parent_id.is_none(),
        sr.spans matches SpanSet::Span(root) && sl.collect_token@[0].parent_id == root.id,
    ensures
        ({
            let cmds = seq![
                CollectCommand::StartCollect(StartCollect { collect_id: k }),
                CollectCommand::SubmitSpans(sr),
                CollectCommand::SubmitSpans(sl),
                CollectCommand::CommitCollect(CommitCollect { collect_id: k }),
            ];
            let t = sr.collect_token@[0].trace_id;
            let root = match sr.spans {
                SpanSet::Span(r) => r,
                _ => l.spans@[0],
            };
            let (a, c, b) = (l.spans@[0], l.spans@[1], l.spans@[2]);
            &&& cycle_flushed(m, cmds, tail_sampled).1 == seq![
                span_record_of(root, t, SpanId(0), root.end_instant),
                span_record_of(a, t, root.id, resolved_end(a, l.end_time)),
                span_record_of(c, t, a.id, resolved_end(c, l.end_time)),
                span_record_of(b, t, root.id, resolved_end(b, l.end_time)),
            ]
            &&& cycle_submitted(m, cmds, tail_sampled).1 == Seq::<CollView>::empty()
            &&& !cycle_state(m, cmds, tail_sampled).active.contains_key(k)
        }),
{
    reveal_with_fuel(start_ids, 5);
    reveal_with_fuel(drop_ids, 5);
    reveal_with_fuel(commit_ids, 5);
    reveal_with_fuel(submits_of, 5);
    reveal_with_fuel(apply_starts, 2);
    reveal_with_fuel(apply_submits, 3);
    reveal_with_fuel(submit_items, 2);
    reveal_with_fuel(apply_commits, 2);
    reveal_with_fuel(amend_collections, 3);
    reveal_with_fuel(amend_local, 4);
    reveal_with_fuel(mount_seq, 5);
    let cmds = seq![
        CollectCommand::StartCollect(StartCollect { collect_id: k }),
        CollectCommand::SubmitSpans(sr),
        CollectCommand::SubmitSpans(sl),
        CollectCommand::CommitCollect(CommitCollect { collect_id: k }),
    ];
    let t = sr.collect_token@[0].trace_id;
    let root = match sr.spans {
        SpanSet::Span(r) => r,
        _ => l.spans@[0],
    };
    let (a, c, b) = (l.spans@[0], l.spans@[1], l.spans@[2]);
    assert(cmds.drop_last().drop_last().drop_last().drop_last() =~= seq![]);
    assert(start_ids(cmds) =~= seq![k]);
    assert(drop_ids(cmds) =~= seq![]);
    assert(commit_ids(cmds) =~= seq![k]);
    assert(submits_of(cmds) =~= seq![sr, sl]);
    assert(seq![k].drop_last() =~= seq![]);
    let m1 = cycle_prelude(m, cmds);
    assert(Seq::<usize>::empty().to_set() =~= Set::<usize>::empty());
    assert(m1.active =~= map![k => fresh_active()]);
    assert(seq![sr, sl].drop_last() =~= seq![sr]);
    assert(seq![sr].drop_last() =~= seq![]);
    assert(sr.collect_token@.drop_last() =~= seq![]);
    assert(sl.collect_token@.drop_last() =~= seq![]);
    let cr: CollView = (sr.spans, t, SpanId(0));
    let cl: CollView = (sl.spans, t, root.id);
    let dset = drop_ids(cmds).to_set();
    let s1 = submit_items((m1.active, seq![]), sr.spans, sr.collect_token@, dset, tail_sampled);
    assert(!dset.contains(k));
    assert(s1.0 =~= map![k => ActiveModel { collections: seq![cr], danglings: Map::empty() }]) by {
        assert(fresh_active().collections.push(cr) =~= seq![cr]);
    }
    assert(s1.1 =~= seq![]);
    let s2 = submit_items(s1, sl.spans, sl.collect_token@, dset, tail_sampled);
    assert(seq![cr].push(cl) =~= seq![cr, cl]);
    assert(s2.0 =~= map![k => ActiveModel { collections: seq![cr, cl], danglings: Map::empty() }]);
    let st = cycle_submitted(m, cmds, tail_sampled);
    assert(st == s2);
    assert(st.1 =~= seq![]);
    assert(st.0 =~= map![k => ActiveModel { collections: seq![cr, cl], danglings: Map::empty() }]);
    let e: DanglingMap = Map::empty();
    let none: Seq<SpanRecordView> = seq![];
    let recs = seq![
        span_record_of(root, t, SpanId(0), root.end_instant),
        span_record_of(a, t, root.id, resolved_end(a, l.end_time)),
        span_record_of(c, t, a.id, resolved_end(c, l.end_time)),
        span_record_of(b, t, root.id, resolved_end(b, l.end_time)),
    ];
    assert(seq![cr, cl].drop_last() =~= seq![cr]);
    assert(seq![cr].drop_last() =~= seq![]);
    let sp = l.spans@;
    assert(sp.drop_last() =~= seq![a, c]);
    assert(sp.drop_last().drop_last() =~= seq![a]);
    assert(sp.drop_last().drop_last().drop_last() =~= seq![]);
    let first: Assembly = (none.push(recs[0]), e);
    assert(amend_collections((none, e), seq![cr]) == first);
    assert(amend_local(first, sp, l.end_time, t, root.id).0 =~= recs);
    assert(amend_local(first, sp, l.end_time, t, root.id).1 == e);
    assert(amend_collections((none, e), seq![cr, cl]) == (recs, e));
    assert(recs.drop_last().drop_last().drop_last().drop_last() =~= seq![]);
    assert(mount_seq(recs, e).0 =~= recs);
    let cc = cycle_committed(m, cmds, tail_sampled);
    assert(cc.0 =~= Map::<usize, ActiveModel>::empty());
    assert(cc.1 =~= recs);
    lemma_flush_inactive(cc.0, m1.order);
    assert(cc.1 + Seq::<SpanRecordView>::empty() =~= cc.1);
}

} // verus!
