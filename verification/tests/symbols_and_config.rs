use std::time::Duration;
use zmq_poc::publisher::PublisherConfig;
use zmq_poc::subscriber::{Metrics, SubscriberConfig};
use zmq_poc::symbols::{symbol_name, symbol_names};

#[test]
fn symbol_name_pads_to_three_digits() {
    assert_eq!(symbol_name(0), "SYM000");
    assert_eq!(symbol_name(7), "SYM007");
    assert_eq!(symbol_name(42), "SYM042");
    assert_eq!(symbol_name(999), "SYM999");
}

#[test]
fn symbol_name_keeps_all_digits_past_three() {
    assert_eq!(symbol_name(1000), "SYM1000");
    assert_eq!(symbol_name(12345), "SYM12345");
}

#[test]
fn symbol_names_are_in_index_order_and_distinct() {
    let names = symbol_names(120);
    assert_eq!(names.len(), 120);
    for (i, n) in names.iter().enumerate() {
        assert_eq!(*n, format!("SYM{i:03}"));
    }
    let set: std::collections::HashSet<&String> = names.iter().collect();
    assert_eq!(set.len(), 120);
    assert!(symbol_names(0).is_empty());
}

#[test]
fn publisher_config_default_values() {
    let c = PublisherConfig::default();
    assert_eq!(c.pub_addr, "tcp://127.0.0.1:5555");
    assert_eq!(c.rep_addr, "tcp://127.0.0.1:5556");
    assert_eq!(c.rate, 10_000);
    assert_eq!(c.symbols.len(), 20);
    assert_eq!(c.symbols[0], "SYM000");
    assert_eq!(c.symbols[19], "SYM019");
}

#[test]
fn subscriber_config_default_values() {
    let c = SubscriberConfig::default();
    assert_eq!(c.sub_addr, "tcp://127.0.0.1:5555");
    assert_eq!(c.req_addr, "tcp://127.0.0.1:5556");
    assert_eq!(c.frame_interval, Duration::from_millis(16));
    assert_eq!(c.frame_interval.as_micros(), 16_000);
    assert_eq!(c.channel_capacity, 10_000);
    assert!(c.symbols.is_empty());
}

#[test]
fn metrics_start_at_zero() {
    let m = Metrics::new();
    assert_eq!(m.received, 0);
    assert_eq!(m.dropped, 0);
    assert_eq!(m.flushes, 0);
    assert_eq!(m.coalesced, 0);
    assert_eq!(m.seq_gaps, 0);
}

use zmq_poc::symbols::{parse_symbol_list, white_space};

#[test]
fn parse_symbol_list_splits_and_trims() {
    assert_eq!(parse_symbol_list("SYM000,SYM001,SYM002"), vec!["SYM000", "SYM001", "SYM002"]);
    assert_eq!(parse_symbol_list(" SYM000 ,\tSYM001\n"), vec!["SYM000", "SYM001"]);
    assert_eq!(parse_symbol_list("\u{3000}X\u{a0}"), vec!["X"]);
}

#[test]
fn parse_symbol_list_keeps_empty_fields() {
    assert_eq!(parse_symbol_list(""), vec![""]);
    assert_eq!(parse_symbol_list("a,,b,"), vec!["a", "", "b", ""]);
    assert_eq!(parse_symbol_list(" , "), vec!["", ""]);
}

#[test]
fn parse_symbol_list_agrees_with_split_and_trim() {
    let inputs = [
        "SYM000,SYM001,SYM002,SYM003,SYM004",
        "  x  ,y,  z",
        "é, ü ,\u{2003}ß\u{2003}",
        ",,,",
        "no-commas-here",
        "\u{85}a\u{1680},\u{205f}b",
    ];
    for s in inputs {
        let expected: Vec<String> = s.split(',').map(|f| f.trim().to_string()).collect();
        assert_eq!(parse_symbol_list(s), expected, "input {s:?}");
    }
}

#[test]
fn white_space_matches_char_is_whitespace() {
    for u in 0u32..0x4000 {
        if let Some(c) = char::from_u32(u) {
            assert_eq!(white_space(c), c.is_whitespace(), "char {u:#x}");
        }
    }
    assert!(!white_space('\u{10ffff}'));
    assert!(!white_space('\u{feff}'));
}
