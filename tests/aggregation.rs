use std::sync::Arc;

use fastrace::collect::LocalCollector;
use fastrace::collect::LocalSpanStack;
use fastrace::global_collector::CollectCommand;
use fastrace::global_collector::CommitCollect;
use fastrace::global_collector::Config;
use fastrace::global_collector::DropCollect;
use fastrace::global_collector::GlobalCollector;
use fastrace::global_collector::StartCollect;
use fastrace::global_collector::SubmitSpans;
use fastrace::id::IdGenerator;
use fastrace::id::SpanId;
use fastrace::id::TraceId;
use fastrace::record::CollectTokenItem;
use fastrace::record::LocalSpansInner;
use fastrace::record::RawKind;
use fastrace::record::RawSpan;
use fastrace::record::SpanRecord;
use fastrace::record::SpanSet;

fn item(trace: u128, parent: u64, collect_id: usize) -> CollectTokenItem {
    CollectTokenItem {
        trace_id: TraceId(trace),
        parent_id: SpanId(parent),
        collect_id,
        is_root: false,
        is_sampled: true,
    }
}

fn start(id: usize) -> CollectCommand {
    CollectCommand::StartCollect(StartCollect { collect_id: id })
}

fn commit(id: usize) -> CollectCommand {
    CollectCommand::CommitCollect(CommitCollect { collect_id: id })
}

fn drop_cmd(id: usize) -> CollectCommand {
    CollectCommand::DropCollect(DropCollect { collect_id: id })
}

fn submit(spans: SpanSet, token: Vec<CollectTokenItem>) -> CollectCommand {
    CollectCommand::SubmitSpans(SubmitSpans {
        spans,
        collect_token: token,
    })
}

fn root_span(id: u64, name: &str, begin: u64, end: u64) -> SpanSet {
    let mut raw = RawSpan::begin_with(SpanId(id), None, begin, name.to_string(), RawKind::Span);
    raw.end_with(end);
    SpanSet::Span(raw)
}

fn find<'a>(records: &'a [SpanRecord], name: &str) -> &'a SpanRecord {
    records.iter().find(|r| r.name == name).unwrap()
}

/// root -> {a -> {c}, b}, recorded within root's local-parent scope.
fn nested_fragment(trace: u128, root: u64, collect_id: usize) -> (LocalSpansInner, Vec<CollectTokenItem>) {
    let mut stack = LocalSpanStack::new(IdGenerator::with_state(7, 0));
    stack.enter_scope(vec![item(trace, root, collect_id)]);
    stack.enter_span("a".to_string(), 1100);
    stack.enter_span("c".to_string(), 1150);
    stack.exit_span(1200);
    stack.exit_span(1300);
    stack.enter_span("b".to_string(), 1400);
    stack.exit_span(1500);
    stack.exit_scope(1600).unwrap()
}

fn check_tree(records: &[SpanRecord]) {
    assert_eq!(records.len(), 4);
    let root = find(records, "root");
    let a = find(records, "a");
    let b = find(records, "b");
    let c = find(records, "c");
    assert_eq!(root.parent_id, SpanId(0));
    assert_eq!(a.parent_id, root.span_id);
    assert_eq!(b.parent_id, root.span_id);
    assert_eq!(c.parent_id, a.span_id);
    assert_eq!(root.duration_ns, 1000);
    assert_eq!(a.begin_time_unix_ns, 1100);
    assert_eq!(a.duration_ns, 200);
    assert_eq!(c.duration_ns, 50);
    assert_eq!(b.duration_ns, 100);
    for r in records {
        assert_eq!(r.trace_id, TraceId(5));
    }
}

#[test]
fn tree_is_rebuilt_from_fragments() {
    let mut gc = GlobalCollector::new(Config::default().tail_sampled(true));
    let (inner, token) = nested_fragment(5, 100, 1);
    let records = gc.handle_commands(vec![
        start(1),
        submit(SpanSet::LocalSpansInner(inner), token),
        submit(root_span(100, "root", 1000, 2000), vec![item(5, 0, 1)]),
        commit(1),
    ]);
    check_tree(&records);
}

#[test]
fn tree_does_not_depend_on_fragment_order() {
    let mut gc = GlobalCollector::new(Config::default());
    let (inner, token) = nested_fragment(5, 100, 1);
    let records = gc.handle_commands(vec![
        start(1),
        submit(root_span(100, "root", 1000, 2000), vec![item(5, 0, 1)]),
        submit(SpanSet::LocalSpansInner(inner), token),
        commit(1),
    ]);
    check_tree(&records);
}

#[test]
fn shared_fragment_appears_under_each_trace() {
    let mut gc = GlobalCollector::new(Config::default().tail_sampled(true));
    let mut local = LocalCollector::start(vec![], IdGenerator::with_state(3, 0));
    local.enter_span("child".to_string(), 10);
    local.exit_span(30);
    let (inner, _) = local.collect(40);
    let records = gc.handle_commands(vec![
        start(1),
        start(2),
        submit(
            SpanSet::SharedLocalSpans(Arc::new(inner)),
            vec![item(12, 21, 1), item(13, 31, 2)],
        ),
        commit(1),
        commit(2),
    ]);
    assert_eq!(records.len(), 2);
    assert_eq!(records[0].trace_id, TraceId(12));
    assert_eq!(records[0].parent_id, SpanId(21));
    assert_eq!(records[1].trace_id, TraceId(13));
    assert_eq!(records[1].parent_id, SpanId(31));
    assert_eq!(records[0].span_id, records[1].span_id);
    assert_eq!(records[0].name, "child");
    assert_eq!(records[1].name, "child");
    assert_eq!(records[0].duration_ns, 20);
    assert_eq!(records[1].duration_ns, 20);
}

#[test]
fn dropped_trace_yields_nothing_and_sibling_is_kept() {
    for tail in [false, true] {
        let mut gc = GlobalCollector::new(Config::default().tail_sampled(tail));
        let mut local = LocalCollector::start(vec![item(1, 10, 1)], IdGenerator::with_state(1, 0));
        local.enter_span("doomed".to_string(), 5);
        local.exit_span(6);
        let (inner, token) = local.collect(7);
        let records = gc.handle_commands(vec![
            start(1),
            start(2),
            submit(SpanSet::LocalSpansInner(inner), token),
            submit(root_span(10, "cancelled", 1, 9), vec![item(1, 0, 1)]),
            submit(root_span(20, "kept", 1, 9), vec![item(2, 0, 2)]),
            drop_cmd(1),
            commit(2),
        ]);
        assert_eq!(records.len(), 1);
        assert_eq!(records[0].name, "kept");
        assert_eq!(records[0].trace_id, TraceId(2));
    }
}

#[test]
fn event_attaches_to_span_whichever_fragment_comes_first() {
    for event_first in [false, true] {
        let mut gc = GlobalCollector::new(Config::default().tail_sampled(true));
        let mut spans = LocalCollector::start(vec![item(9, 0, 1)], IdGenerator::with_state(2, 0));
        let id = spans.enter_span("work".to_string(), 100);
        spans.exit_span(200);
        let (span_frag, span_token) = spans.collect(300);
        let mut events = LocalCollector::start(vec![item(9, id.0, 1)], IdGenerator::with_state(4, 0));
        events.add_event("ping".to_string(), vec![("k".to_string(), "v".to_string())], 150);
        let (event_frag, event_token) = events.collect(300);
        let a = submit(SpanSet::LocalSpansInner(span_frag), span_token);
        let b = submit(SpanSet::LocalSpansInner(event_frag), event_token);
        let cmds = if event_first {
            vec![start(1), b, a, commit(1)]
        } else {
            vec![start(1), a, b, commit(1)]
        };
        let records = gc.handle_commands(cmds);
        assert_eq!(records.len(), 1);
        assert_eq!(records[0].events.len(), 1);
        assert_eq!(records[0].events[0].name, "ping");
        assert_eq!(records[0].events[0].timestamp_unix_ns, 150);
        assert_eq!(
            records[0].events[0].properties,
            vec![("k".to_string(), "v".to_string())]
        );
    }
}

#[test]
fn properties_are_appended_to_their_span() {
    let mut gc = GlobalCollector::new(Config::default().tail_sampled(true));
    let mut local = LocalCollector::start(vec![item(9, 0, 1)], IdGenerator::with_state(2, 0));
    local.enter_span("span".to_string(), 1);
    local.add_properties(vec![("k1".to_string(), "v1".to_string())], 2);
    local.add_properties(vec![("k2".to_string(), "v2".to_string())], 3);
    local.exit_span(4);
    let (frag, token) = local.collect(5);
    let records = gc.handle_commands(vec![
        start(1),
        submit(SpanSet::LocalSpansInner(frag), token),
        commit(1),
    ]);
    assert_eq!(records.len(), 1);
    assert_eq!(
        records[0].properties,
        vec![
            ("k1".to_string(), "v1".to_string()),
            ("k2".to_string(), "v2".to_string())
        ]
    );
}

#[test]
fn duration_saturates_at_zero() {
    let mut gc = GlobalCollector::new(Config::default().tail_sampled(true));
    let records = gc.handle_commands(vec![
        start(1),
        submit(root_span(1, "skewed", 500, 100), vec![item(1, 0, 1)]),
        commit(1),
    ]);
    assert_eq!(records.len(), 1);
    assert_eq!(records[0].duration_ns, 0);
    assert_eq!(records[0].begin_time_unix_ns, 500);
}

#[test]
fn open_span_ends_at_fragment_end() {
    let mut gc = GlobalCollector::new(Config::default().tail_sampled(true));
    let mut local = LocalCollector::start(vec![item(1, 0, 1)], IdGenerator::with_state(2, 0));
    local.enter_span("open".to_string(), 100);
    let (frag, token) = local.collect(175);
    let records = gc.handle_commands(vec![
        start(1),
        submit(SpanSet::LocalSpansInner(frag), token),
        commit(1),
    ]);
    assert_eq!(records.len(), 1);
    assert_eq!(records[0].duration_ns, 75);
}

#[test]
fn teardown_twice_is_teardown_once() {
    let mut once = GlobalCollector::new(Config::default().tail_sampled(true));
    let mut twice = GlobalCollector::new(Config::default().tail_sampled(true));
    let r1 = once.handle_commands(vec![
        start(1),
        submit(root_span(1, "root", 1, 2), vec![item(1, 0, 1)]),
        commit(1),
    ]);
    let r2 = twice.handle_commands(vec![
        start(1),
        submit(root_span(1, "root", 1, 2), vec![item(1, 0, 1)]),
        commit(1),
        commit(1),
    ]);
    assert_eq!(r1, r2);
    assert_eq!(r1.len(), 1);
    assert!(twice.handle_commands(vec![commit(1), drop_cmd(1)]).is_empty());

    let mut d = GlobalCollector::new(Config::default().tail_sampled(true));
    let r3 = d.handle_commands(vec![
        start(1),
        submit(root_span(1, "root", 1, 2), vec![item(1, 0, 1)]),
        drop_cmd(1),
        drop_cmd(1),
    ]);
    assert!(r3.is_empty());
    assert!(d.handle_commands(vec![commit(1)]).is_empty());
}

#[test]
fn active_traces_are_flushed_each_cycle_without_tail_sampling() {
    let mut gc = GlobalCollector::new(Config::default());
    let first = gc.handle_commands(vec![
        start(1),
        submit(root_span(1, "early", 1, 2), vec![item(1, 0, 1)]),
    ]);
    assert_eq!(first.len(), 1);
    assert_eq!(first[0].name, "early");
    let second = gc.handle_commands(vec![
        submit(root_span(2, "late", 3, 4), vec![item(1, 1, 1)]),
        commit(1),
    ]);
    assert_eq!(second.len(), 1);
    assert_eq!(second[0].name, "late");
    assert!(gc.handle_commands(vec![]).is_empty());
}

#[test]
fn tail_sampling_holds_until_commit() {
    let mut gc = GlobalCollector::new(Config::default().tail_sampled(true));
    let first = gc.handle_commands(vec![
        start(1),
        submit(root_span(1, "held", 1, 2), vec![item(1, 0, 1)]),
    ]);
    assert!(first.is_empty());
    let second = gc.handle_commands(vec![commit(1)]);
    assert_eq!(second.len(), 1);
    assert_eq!(second[0].name, "held");
}

#[test]
fn stale_fragments_are_grouped_by_trace() {
    let mut gc = GlobalCollector::new(Config::default());
    let records = gc.handle_commands(vec![
        submit(root_span(1, "t9-a", 1, 2), vec![item(9, 0, 70)]),
        submit(root_span(2, "t3-a", 1, 2), vec![item(3, 0, 71)]),
        submit(root_span(3, "t9-b", 1, 2), vec![item(9, 1, 72)]),
    ]);
    let names: Vec<&str> = records.iter().map(|r| r.name.as_str()).collect();
    assert_eq!(names, vec!["t3-a", "t9-a", "t9-b"]);

    let mut tail = GlobalCollector::new(Config::default().tail_sampled(true));
    assert!(tail
        .handle_commands(vec![submit(root_span(1, "x", 1, 2), vec![item(9, 0, 70)])])
        .is_empty());
}

#[test]
fn restart_discards_accumulated_fragments() {
    let mut gc = GlobalCollector::new(Config::default().tail_sampled(true));
    gc.handle_commands(vec![
        start(1),
        submit(root_span(1, "old", 1, 2), vec![item(1, 0, 1)]),
    ]);
    let records = gc.handle_commands(vec![start(1), commit(1)]);
    assert!(records.is_empty());
}

#[test]
fn fragment_alone_becomes_records_under_its_parent() {
    let mut local = LocalCollector::start(vec![], IdGenerator::with_state(8, 0));
    let outer = local.enter_span("outer".to_string(), 10);
    local.add_event("tick".to_string(), vec![], 12);
    local.enter_span("inner".to_string(), 11);
    local.exit_span(13);
    let (frag, _) = local.collect(20);
    let parent = fastrace::id::SpanContext::new(TraceId(77), SpanId(5));
    let records = frag.to_span_records(parent);
    assert_eq!(records.len(), 2);
    assert_eq!(records[0].name, "outer");
    assert_eq!(records[0].parent_id, SpanId(5));
    assert_eq!(records[0].duration_ns, 10);
    assert_eq!(records[0].events.len(), 1);
    assert_eq!(records[0].events[0].name, "tick");
    assert_eq!(records[1].name, "inner");
    assert_eq!(records[1].parent_id, outer);
    assert_eq!(records[1].trace_id, TraceId(77));
}
