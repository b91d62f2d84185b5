use std::sync::atomic::AtomicUsize;

use fastrace::collect::GlobalCollect;
use fastrace::global_collector::CollectCommand;
use fastrace::global_collector::StartCollect;
use fastrace::global_collector::SubmitSpans;
use fastrace::id::SpanId;
use fastrace::id::TraceId;
use fastrace::record::CollectTokenItem;
use fastrace::record::RawKind;
use fastrace::record::RawSpan;
use fastrace::record::SpanSet;
use fastrace::spsc::bounded;
use fastrace::spsc::drain_receivers;
use fastrace::spsc::under_pressure;
use fastrace::spsc::CommandSender;
use fastrace::spsc::NotifySender;

fn start(id: usize) -> CollectCommand {
    CollectCommand::StartCollect(StartCollect { collect_id: id })
}

fn id_of(cmd: &CollectCommand) -> usize {
    match cmd {
        CollectCommand::StartCollect(c) => c.collect_id,
        CollectCommand::CommitCollect(c) => c.collect_id,
        CollectCommand::DropCollect(c) => c.collect_id,
        CollectCommand::CancelCollect(c) => c.collect_id,
        CollectCommand::SubmitSpans(_) => usize::MAX,
    }
}

#[test]
fn messages_arrive_in_order() {
    let (mut tx, mut rx) = bounded(4);
    for i in 0..3 {
        tx.send(start(i));
    }
    for i in 0..3 {
        assert_eq!(id_of(&rx.try_recv().unwrap().unwrap()), i);
    }
    assert!(rx.try_recv().unwrap().is_none());
}

#[test]
fn full_buffer_keeps_messages_pending() {
    let (mut tx, mut rx) = bounded(2);
    for i in 0..5 {
        tx.send(start(i));
    }
    assert_eq!(id_of(&rx.try_recv().unwrap().unwrap()), 0);
    assert_eq!(id_of(&rx.try_recv().unwrap().unwrap()), 1);
    assert!(rx.try_recv().unwrap().is_none());
    tx.send(start(5));
    let mut got = Vec::new();
    loop {
        match rx.try_recv().unwrap() {
            Some(cmd) => got.push(id_of(&cmd)),
            None => {
                if got.len() >= 4 {
                    break;
                }
                tx.send(start(100 + got.len()));
            }
        }
    }
    assert_eq!(&got[..2], &[2, 3]);
}

#[test]
fn closed_channel_is_reported() {
    let (tx, mut rx) = bounded(2);
    drop(tx);
    assert!(rx.try_recv().is_err());
}

#[test]
fn pressure_is_reported_past_half_capacity() {
    let (mut tx, _rx) = bounded(4);
    assert!(!tx.is_under_pressure());
    tx.send(start(0));
    tx.send(start(1));
    assert!(!tx.is_under_pressure());
    tx.send(start(2));
    assert!(tx.is_under_pressure());
}

#[test]
fn drain_collects_and_drops_closed_receivers() {
    let (mut tx1, rx1) = bounded(8);
    let (tx2, rx2) = bounded(8);
    tx1.send(start(1));
    tx1.send(start(2));
    drop(tx2);
    let mut rxs = vec![rx1, rx2];
    let msgs = drain_receivers(&mut rxs, 100);
    assert_eq!(msgs.iter().map(id_of).collect::<Vec<_>>(), vec![1, 2]);
    assert_eq!(rxs.len(), 1);
}

#[test]
fn drain_takes_at_most_the_limit() {
    let (mut tx, rx) = bounded(8);
    for i in 0..5 {
        tx.send(start(i));
    }
    let mut rxs = vec![rx];
    assert_eq!(drain_receivers(&mut rxs, 3).len(), 3);
    assert_eq!(drain_receivers(&mut rxs, 3).len(), 2);
}

#[test]
fn global_collect_sends_commands() {
    let (tx, mut rx) = bounded(16);
    let (notify_tx, _notify_rx) = std::sync::mpsc::sync_channel(1);
    let mut gc = GlobalCollect::new(CommandSender::new(tx, NotifySender::new(notify_tx)));
    let next = AtomicUsize::new(40);
    let id = gc.start_collect(&next);
    assert_eq!(id, 40);
    assert_eq!(gc.start_collect(&next), 41);
    gc.commit_collect(40);
    gc.drop_collect(41);
    let raw = RawSpan::begin_with(SpanId(1), None, 0, "s".to_string(), RawKind::Span);
    let item = |sampled: bool| CollectTokenItem {
        trace_id: TraceId(1),
        parent_id: SpanId(0),
        collect_id: 40,
        is_root: true,
        is_sampled: sampled,
    };
    gc.submit_spans(SpanSet::Span(raw), vec![item(false), item(true), item(false)]);
    let raw2 = RawSpan::begin_with(SpanId(2), None, 0, "t".to_string(), RawKind::Span);
    gc.submit_spans(SpanSet::Span(raw2), vec![item(false)]);
    let mut got = Vec::new();
    while let Some(cmd) = rx.try_recv().unwrap() {
        got.push(cmd);
    }
    assert_eq!(got.len(), 5);
    assert!(matches!(got[0], CollectCommand::StartCollect(StartCollect { collect_id: 40 })));
    assert!(matches!(got[2], CollectCommand::CommitCollect(_)));
    assert!(matches!(got[3], CollectCommand::DropCollect(_)));
    match &got[4] {
        CollectCommand::SubmitSpans(SubmitSpans { collect_token, .. }) => {
            assert_eq!(collect_token.len(), 1);
            assert!(collect_token[0].is_sampled);
        }
        _ => panic!("expected a submit"),
    }
}

#[test]
fn pressure_threshold_is_half_the_slots() {
    assert!(!under_pressure(2, 4));
    assert!(under_pressure(1, 4));
    assert!(!under_pressure(0, 0));
    assert!(under_pressure(0, 1));
    assert!(!under_pressure(usize::MAX, usize::MAX));
}

#[test]
fn flush_pending_moves_waiting_messages_when_room_appears() {
    let (mut tx, mut rx) = bounded(1);
    tx.send(start(1));
    tx.send(start(2));
    assert_eq!(id_of(&rx.try_recv().unwrap().unwrap()), 1);
    assert!(rx.try_recv().unwrap().is_none());
    tx.flush_pending();
    assert_eq!(id_of(&rx.try_recv().unwrap().unwrap()), 2);
}

#[test]
fn drain_keeps_receiver_order() {
    let (mut tx1, rx1) = bounded(8);
    let (mut tx2, rx2) = bounded(8);
    tx1.send(start(1));
    tx2.send(start(2));
    tx1.send(start(3));
    let mut rxs = vec![rx1, rx2];
    let msgs = drain_receivers(&mut rxs, usize::MAX);
    assert_eq!(msgs.iter().map(id_of).collect::<Vec<_>>(), vec![1, 3, 2]);
    assert_eq!(rxs.len(), 2);
}
