use zmq_poc::proto::{ControlRequest, ControlResponse, Tick};
use zmq_poc::publisher::Publisher;
use zmq_poc::symbols::symbol_names;
use zmq_poc::subscriber::{is_seq_gap, symbols_stride, Coalescer, SendOutcome, TickReceiver};

fn tick(sym: &str, seq: u64) -> Tick {
    Tick { symbol: sym.to_string(), bid: 1, ask: 2, last: seq, size: 100, seq, ts_nanos: 0 }
}

#[test]
fn stride_is_one() {
    assert_eq!(symbols_stride(0, "SYM000"), 1);
    assert_eq!(symbols_stride(u64::MAX, ""), 1);
}

#[test]
fn gap_on_jump_over_1000_either_way() {
    assert!(!is_seq_gap(5, 6, 1));
    assert!(!is_seq_gap(5, 1005, 1));
    assert!(is_seq_gap(5, 1006, 1));
    assert!(!is_seq_gap(5, 5, 1));
    assert!(is_seq_gap(0, u64::MAX, 1));
    // a publisher restart: the numbering falls back by more than 1000
    assert!(is_seq_gap(5000, 3, 1));
    assert!(is_seq_gap(1001, 0, 1));
    assert!(!is_seq_gap(1000, 0, 1));
    assert!(!is_seq_gap(u64::MAX - 10, u64::MAX - 9, 1));
    assert!(is_seq_gap(u64::MAX - 10, 3, 1));
    // the expected successor is never a gap
    assert!(!is_seq_gap(0, 2000, 2000));
    assert!(is_seq_gap(0, 2000, 1999));
}

#[test]
fn receiver_detects_gap_per_topic() {
    let mut r = TickReceiver::new(vec!["SYM000".into()]);
    assert!(!r.observe("SYM000".into(), 10));
    assert!(!r.observe("SYM000".into(), 500));
    assert!(!r.observe("SYM001".into(), 5000));
    assert!(r.observe("SYM000".into(), 5000));
    // the restarted publisher counts from 0 again: a gap, a snapshot is due
    assert!(r.observe("SYM000".into(), 0));
    assert!(!r.observe("SYM000".into(), 900));
    assert!(!r.gap_rule_overflows(&"SYM000".to_string()));
    assert!(!r.gap_rule_overflows(&"SYM777".to_string()));
    let m = r.metrics();
    assert_eq!(m.seq_gaps, 2);
    // ticks count as received once their fate is noted
    assert_eq!(m.received, 0);
    assert_eq!(m.dropped, 0);
}

#[test]
fn snapshot_forwarding_keeps_only_subscribed_symbols() {
    let mut r = TickReceiver::new(vec!["SYM000".into(), "SYM002".into()]);
    let resp = ControlResponse::Snapshot {
        ticks: vec![tick("SYM000", 1), tick("SYM001", 2), tick("SYM002", 3), tick("SYM0020", 4)],
    };
    let fwd = r.accept_snapshot(resp);
    let syms: Vec<&str> = fwd.iter().map(|t| t.symbol.as_str()).collect();
    assert_eq!(syms, vec!["SYM000", "SYM002"]);
    for _ in &fwd {
        r.note_snapshot_send(SendOutcome::Sent);
    }
    assert_eq!(r.metrics().received, 2);
    assert!(r.accept_snapshot(ControlResponse::Pong).is_empty());
    assert_eq!(r.metrics().received, 2);
    assert!(r.is_subscribed(&"SYM002".to_string()));
    assert!(!r.is_subscribed(&"SYM00".to_string()));
}

#[test]
fn send_outcomes_count_received_and_drops() {
    let mut r = TickReceiver::new(vec![]);
    assert!(r.note_live_send(SendOutcome::Sent));
    assert!(r.note_live_send(SendOutcome::Full));
    assert_eq!(r.metrics().dropped, 1);
    assert_eq!(r.metrics().received, 2);
    r.note_snapshot_send(SendOutcome::Sent);
    r.note_snapshot_send(SendOutcome::Full);
    r.note_snapshot_send(SendOutcome::Disconnected);
    let m = r.metrics();
    assert_eq!(m.dropped, 3);
    assert_eq!(m.received, 5);
    // received - dropped is what went into the queue
    assert_eq!(m.received - m.dropped, 2);
    assert!(!r.note_live_send(SendOutcome::Disconnected));
    assert_eq!(r.metrics().dropped, 3);
    assert_eq!(r.metrics().received, 6);
}

#[test]
fn coalescer_keeps_latest_per_symbol_and_counts_overwrites() {
    let mut c = Coalescer::new();
    assert!(c.flush(true).is_none());
    c.ingest(tick("A", 1));
    c.ingest(tick("B", 2));
    c.ingest(tick("A", 3));
    c.ingest(tick("A", 4));
    assert_eq!(c.coalesced_in_frame(), 2);
    assert!(c.flush(false).is_none());
    let b = c.flush(true).expect("frame should flush");
    assert_eq!(b.coalesced_count, 2);
    assert_eq!(b.ticks.len() as u64 + b.coalesced_count, 4);
    let a = b.ticks.iter().find(|t| t.symbol == "A").unwrap();
    assert_eq!(a.seq, 4);
    let bb = b.ticks.iter().find(|t| t.symbol == "B").unwrap();
    assert_eq!(bb.seq, 2);
    let m = c.metrics();
    assert_eq!(m.coalesced, 2);
    assert_eq!(m.flushes, 1);
    assert_eq!(c.coalesced_in_frame(), 0);
    assert!(c.flush(true).is_none());
    c.ingest(tick("A", 9));
    let b2 = c.flush(true).unwrap();
    assert_eq!(b2.coalesced_count, 0);
    assert_eq!(b2.ticks.len(), 1);
    assert_eq!(c.metrics().flushes, 2);
    assert_eq!(c.metrics().coalesced, 2);
    // the coalesced counter grows over a frame by the batch's count
    c.ingest(tick("C", 1));
    c.ingest(tick("C", 2));
    c.ingest(tick("C", 3));
    let before = 2;
    let b3 = c.flush(true).unwrap();
    assert_eq!(c.metrics().coalesced, before + b3.coalesced_count);
    assert_eq!(b3.coalesced_count, 2);
}

#[test]
fn forwarded_snapshot_is_latest_of_subscribed_symbols() {
    let mut p = Publisher::new(symbol_names(4));
    for k in 0..10u64 {
        let t = p.next_tick(k, k, k, 0);
        assert!(p.record_sent(t));
    }
    let reply = p.respond(Ok(ControlRequest::Snapshot));
    let r = TickReceiver::new(vec!["SYM001".into(), "SYM003".into(), "SYM009".into()]);
    let mut fwd: Vec<(String, u64)> =
        r.accept_snapshot(reply).into_iter().map(|t| (t.symbol, t.seq)).collect();
    fwd.sort();
    assert_eq!(fwd, vec![("SYM001".to_string(), 9), ("SYM003".to_string(), 7)]);
}

#[test]
fn gap_rule_overflow_is_reported_before_observing() {
    let mut r = TickReceiver::new(vec![]);
    assert!(!r.observe("T".into(), u64::MAX - 500));
    assert!(!r.gap_rule_overflows(&"T".to_string()));
    // the rule adds the stride to the previous number: at the very top that
    // sum is out of range
    assert!(!r.observe("U".into(), u64::MAX));
    assert!(r.gap_rule_overflows(&"U".to_string()));
}
