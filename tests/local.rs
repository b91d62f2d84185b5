use std::collections::HashSet;

use fastrace::collect::LocalCollector;
use fastrace::collect::LocalSpanStack;
use fastrace::event::Event;
use fastrace::global_collector::Config;
use fastrace::id::IdGenerator;
use fastrace::id::SpanContext;
use fastrace::id::SpanId;
use fastrace::id::TraceId;
use fastrace::record::CollectTokenItem;
use fastrace::record::RawKind;

fn item(trace: u128, parent: u64) -> CollectTokenItem {
    CollectTokenItem {
        trace_id: TraceId(trace),
        parent_id: SpanId(parent),
        collect_id: 1,
        is_root: false,
        is_sampled: false,
    }
}

#[test]
fn next_id_combines_prefix_and_suffix() {
    let mut g = IdGenerator::with_state(0xabcd, 41);
    assert_eq!(g.next_id(), SpanId(0x0000abcd_0000002a));
    assert_eq!(g.next_id(), SpanId(0x0000abcd_0000002b));
    let mut w = IdGenerator::with_state(1, u32::MAX);
    assert_eq!(w.next_id(), SpanId(0x00000001_00000000));
}

#[test]
fn unique_id() {
    let mut seen = HashSet::new();
    for _ in 0..32 {
        let mut g = IdGenerator::new();
        for _ in 0..1000 {
            seen.insert(g.next_id());
        }
    }
    assert_eq!(seen.len(), 32 * 1000);
}

#[test]
fn spans_nest_under_the_innermost_open_span() {
    let mut local = LocalCollector::start(vec![item(3, 9)], IdGenerator::with_state(5, 0));
    assert_eq!(local.current_span_id(), None);
    let a = local.enter_span("a".to_string(), 10);
    let b = local.enter_span("b".to_string(), 11);
    assert_eq!(local.current_span_id(), Some(b));
    local.exit_span(12);
    assert_eq!(local.current_span_id(), Some(a));
    local.add_event("e".to_string(), vec![], 13);
    local.exit_span(14);
    local.exit_span(15);
    let (frag, token) = local.collect(20);
    assert_eq!(token.len(), 1);
    assert_eq!(frag.end_time, 20);
    assert_eq!(frag.spans.len(), 3);
    assert_eq!(frag.spans[0].id, a);
    assert_eq!(frag.spans[0].parent_id, None);
    assert_eq!(frag.spans[0].end_instant, 14);
    assert_eq!(frag.spans[1].parent_id, Some(a));
    assert_eq!(frag.spans[1].end_instant, 12);
    assert_eq!(frag.spans[2].raw_kind, RawKind::Event);
    assert_eq!(frag.spans[2].parent_id, Some(a));
    assert_ne!(a, b);
}

#[test]
fn current_context_follows_the_open_span() {
    let mut stack = LocalSpanStack::new(IdGenerator::with_state(5, 0));
    assert!(SpanContext::current_local_parent(&stack).is_none());
    stack.enter_scope(vec![item(3, 9)]);
    let ctx = SpanContext::current_local_parent(&stack).unwrap();
    assert_eq!(ctx.trace_id, TraceId(3));
    assert_eq!(ctx.span_id, SpanId(9));
    assert!(!ctx.sampled);
    let a = stack.enter_span("a".to_string(), 10).unwrap();
    assert_eq!(SpanContext::current_local_parent(&stack).unwrap().span_id, a);
    let mut detached = LocalSpanStack::new(IdGenerator::with_state(5, 0));
    detached.enter_scope(vec![]);
    assert!(SpanContext::current_local_parent(&detached).is_none());
}

#[test]
fn spans_outside_any_scope_are_dropped() {
    let mut stack = LocalSpanStack::new(IdGenerator::with_state(5, 0));
    assert!(stack.enter_span("lost".to_string(), 1).is_none());
    stack.add_event("lost".to_string(), vec![], 2);
    stack.exit_span(3);
    assert!(stack.exit_scope(4).is_none());
}

#[test]
fn inner_scope_is_merged_under_the_enclosing_span() {
    let mut stack = LocalSpanStack::new(IdGenerator::with_state(5, 0));
    stack.enter_scope(vec![item(3, 9)]);
    let outer = stack.enter_span("outer".to_string(), 10).unwrap();
    stack.enter_scope(vec![item(4, 1)]);
    let inner = stack.enter_span("inner".to_string(), 11).unwrap();
    stack.add_event("e".to_string(), vec![], 12);
    assert!(stack.exit_scope(13).is_none());
    stack.exit_span(14);
    let (frag, token) = stack.exit_scope(15).unwrap();
    assert_eq!(token[0].trace_id, TraceId(3));
    assert_eq!(frag.spans.len(), 3);
    assert_eq!(frag.spans[0].id, outer);
    assert_eq!(frag.spans[0].end_instant, 14);
    assert_eq!(frag.spans[1].id, inner);
    assert_eq!(frag.spans[1].parent_id, Some(outer));
    assert_eq!(frag.spans[1].end_instant, 13);
    assert_eq!(frag.spans[2].parent_id, Some(inner));
    assert_ne!(outer, inner);
    assert!(stack.exit_scope(16).is_none());
}

#[test]
fn events_collect_properties() {
    let e = Event::new("event")
        .with_property(|| ("k1".to_string(), "v1".to_string()))
        .with_properties(|| vec![("k2".to_string(), "v2".to_string())]);
    assert_eq!(e.name, "event");
    assert_eq!(
        e.properties,
        vec![
            ("k1".to_string(), "v1".to_string()),
            ("k2".to_string(), "v2".to_string())
        ]
    );
    let mut local = LocalCollector::start(vec![], IdGenerator::with_state(5, 0));
    let s = local.enter_span("s".to_string(), 1);
    Event::add_to_local_parent("in s", || vec![("a".to_string(), "b".to_string())], &mut local, 2);
    let (frag, _) = local.collect(3);
    assert_eq!(frag.spans[1].name, "in s");
    assert_eq!(frag.spans[1].parent_id, Some(s));
    assert_eq!(frag.spans[1].properties.len(), 1);
}

#[test]
fn config_builders() {
    let c = Config::default();
    assert!(!c.tail_sampled);
    assert_eq!(c.report_interval, std::time::Duration::from_secs(1));
    let c2 = c
        .report_interval(std::time::Duration::from_millis(100))
        .tail_sampled(true)
        .max_spans_per_trace(Some(10))
        .report_before_root_finish(true);
    assert_eq!(c2.report_interval, std::time::Duration::from_millis(100));
    assert!(c2.tail_sampled);
    let ctx = SpanContext::new(TraceId(1), SpanId(2)).sampled(false);
    assert!(!ctx.sampled);
}

#[test]
fn raw_span_copy_keeps_every_field() {
    let mut raw = fastrace::record::RawSpan::begin_with(
        SpanId(4),
        Some(SpanId(2)),
        10,
        "copy".to_string(),
        RawKind::Event,
    );
    raw.properties.push(("k".to_string(), "v".to_string()));
    raw.end_with(20);
    let copy = raw.duplicate();
    assert_eq!(copy.id, SpanId(4));
    assert_eq!(copy.parent_id, Some(SpanId(2)));
    assert_eq!(copy.begin_instant, 10);
    assert_eq!(copy.name, "copy");
    assert_eq!(copy.properties, raw.properties);
    assert_eq!(copy.raw_kind, RawKind::Event);
    assert_eq!(copy.end_instant, 20);
}

#[test]
fn context_of_a_token() {
    assert!(SpanContext::from_span(&vec![]).is_none());
    let ctx = SpanContext::from_span(&vec![item(6, 60), item(7, 70)]).unwrap();
    assert_eq!(ctx.trace_id, TraceId(6));
    assert_eq!(ctx.span_id, SpanId(60));
    assert!(!ctx.sampled);
}

#[test]
fn wait_is_the_rest_of_the_interval() {
    assert_eq!(fastrace::global_collector::next_wait_ns(1000, 300), 700);
    assert_eq!(fastrace::global_collector::next_wait_ns(1000, 1000), 0);
    assert_eq!(fastrace::global_collector::next_wait_ns(1000, 5000), 0);
}
