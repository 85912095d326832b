use zmq_poc::proto::{ControlRequest, ControlResponse, Tick};
use zmq_poc::publisher::{drift_seed, tick_size, Publisher};
use zmq_poc::symbols::symbol_names;

#[test]
fn drift_seed_exact_values() {
    assert_eq!(drift_seed(0), 1);
    assert_eq!(drift_seed(1), 6364136223846793006);
    assert_eq!(drift_seed(2), 12728272447693586011);
    assert_eq!(drift_seed(3), 645664597830827400);
    assert_eq!(drift_seed(12345), 578673459679314182);
    assert_eq!(drift_seed(u64::MAX), 12082607849862758612);
}

#[test]
fn tick_size_cycles_from_100_to_999() {
    assert_eq!(tick_size(0), 100);
    assert_eq!(tick_size(899), 999);
    assert_eq!(tick_size(900), 100);
    assert_eq!(tick_size(1234), 434);
}

fn publish(p: &mut Publisher, price: u64) -> Tick {
    let t = p.next_tick(price, price + 1, price + 2, 77);
    assert!(p.record_sent(t.clone()));
    t
}

#[test]
fn publisher_cycles_symbols_round_robin() {
    let mut p = Publisher::new(symbol_names(3));
    let mut seen = Vec::new();
    for k in 0..7u64 {
        assert_eq!(p.seq(), k);
        assert_eq!(p.next_index(), (k % 3) as usize);
        let t = publish(&mut p, k);
        assert_eq!(t.seq, k);
        assert_eq!(t.size, 100 + (k % 900) as u32);
        assert_eq!(t.ts_nanos, 77);
        seen.push(t.symbol);
    }
    assert_eq!(seen, vec!["SYM000", "SYM001", "SYM002", "SYM000", "SYM001", "SYM002", "SYM000"]);
    assert_eq!(p.seq(), 7);
}

#[test]
fn record_sent_refuses_a_tick_out_of_turn() {
    let mut p = Publisher::new(symbol_names(2));
    let mut t = p.next_tick(1, 2, 3, 4);
    t.symbol = "SYM001".to_string();
    assert!(!p.record_sent(t));
    assert_eq!(p.seq(), 0);
    let mut t2 = p.next_tick(1, 2, 3, 4);
    t2.seq = 5;
    assert!(!p.record_sent(t2));
    assert_eq!(p.seq(), 0);
    let mut t3 = p.next_tick(1, 2, 3, 4);
    t3.size = 5;
    assert!(!p.record_sent(t3));
    assert_eq!(p.seq(), 0);
    assert!(p.snapshot().is_empty());
}

#[test]
fn snapshot_holds_latest_tick_per_symbol() {
    let mut p = Publisher::new(symbol_names(2));
    for k in 0..5u64 {
        publish(&mut p, 1000 + k);
    }
    let snap = p.snapshot();
    assert_eq!(snap.len(), 2);
    let s0 = snap.iter().find(|t| t.symbol == "SYM000").unwrap();
    let s1 = snap.iter().find(|t| t.symbol == "SYM001").unwrap();
    assert_eq!(s0.seq, 4);
    assert_eq!(s0.bid, 1004);
    assert_eq!(s1.seq, 3);
    assert_eq!(s1.last, 1005);
}

#[test]
fn respond_to_each_request() {
    let mut p = Publisher::new(symbol_names(3));
    publish(&mut p, 10);
    assert_eq!(p.respond(Ok(ControlRequest::Ping)), ControlResponse::Pong);
    assert_eq!(
        p.respond(Ok(ControlRequest::Subscribe { symbol: "SYM000".into() })),
        ControlResponse::Ack
    );
    assert_eq!(
        p.respond(Ok(ControlRequest::Unsubscribe { symbol: "X".into() })),
        ControlResponse::Ack
    );
    match p.respond(Ok(ControlRequest::Snapshot)) {
        ControlResponse::Snapshot { ticks } => {
            assert_eq!(ticks.len(), 1);
            assert_eq!(ticks[0].symbol, "SYM000");
        }
        other => panic!("expected Snapshot, got {other:?}"),
    }
    assert_eq!(
        p.respond(Err("io error: unexpected end of file".into())),
        ControlResponse::Error { msg: "decode error: io error: unexpected end of file".into() }
    );
}

#[test]
fn snapshot_of_fresh_publisher_is_empty() {
    let p = Publisher::new(symbol_names(4));
    match p.respond(Ok(ControlRequest::Snapshot)) {
        ControlResponse::Snapshot { ticks } => assert!(ticks.is_empty()),
        other => panic!("expected Snapshot, got {other:?}"),
    }
}

#[test]
fn snapshot_contains_every_symbol_after_full_cycle() {
    let names = symbol_names(5);
    let mut p = Publisher::new(names.clone());
    for k in 0..5u64 {
        publish(&mut p, k);
    }
    let snap = p.snapshot();
    for n in &names {
        assert!(snap.iter().any(|t| &t.symbol == n), "snapshot should contain {n}");
    }
}
