use zydecodb_engine::errors::EngineError;
use zydecodb_engine::shipping::{
    pair_text, parse_heartbeat, parse_shipped_log, resolve_seq_at_or_before, sha256_hex,
    shipped_text, verify_segment, ShipMode,
};
use zydecodb_engine::wal::segment_filename;

const HELLO: &str = "2cf24dba5fb0a30e26e83b2ac5b9e29e1b161e5c1fa7425e73043362938b9824";

#[test]
fn heartbeat_round_trips() {
    let text = pair_text(1_700_000_000_000, 42);
    assert_eq!(text, "1700000000000 42\n");
    let hb = parse_heartbeat(&text).unwrap();
    assert_eq!(hb.unix_millis, 1_700_000_000_000);
    assert_eq!(hb.last_seal_seq, 42);
    let hb2 = parse_heartbeat(&pair_text(1_700_000_005_000, 99)).unwrap();
    assert_eq!(hb2.last_seal_seq, 99);
}

#[test]
fn bad_heartbeats_are_refused() {
    let cases = [
        ("", "heartbeat: expected '<unix_millis> <seq>'"),
        ("1 2 3", "heartbeat: expected '<unix_millis> <seq>'"),
        ("x 2", "heartbeat: bad timestamp"),
        ("1 -2", "heartbeat: bad seq"),
        ("1 18446744073709551616", "heartbeat: bad seq"),
    ];
    for (text, want) in cases {
        match parse_heartbeat(text) {
            Err(EngineError::Io(m)) => assert_eq!(m, want),
            other => panic!("{:?}", other),
        }
    }
}

#[test]
fn ship_mode_parses() {
    assert_eq!(ShipMode::from_str_or_default("copy"), ShipMode::Copy);
    assert_eq!(ShipMode::from_str_or_default("COPY"), ShipMode::Copy);
    assert_eq!(
        ShipMode::from_str_or_default("hardlink"),
        ShipMode::Hardlink
    );
    assert_eq!(ShipMode::from_str_or_default("garbage"), ShipMode::Hardlink);
}

#[test]
fn ship_mode_ignores_space_around() {
    assert_eq!(ShipMode::from_str_or_default(" Copy\n"), ShipMode::Copy);
    assert_eq!(ShipMode::from_str_or_default("co py"), ShipMode::Hardlink);
}

#[test]
fn time_resolves_to_the_largest_seq_not_after_it() {
    let text = "100 5\n200 9\nnonsense\n150 7\n\n300 12";
    assert_eq!(resolve_seq_at_or_before(text, 99), None);
    assert_eq!(resolve_seq_at_or_before(text, 100), Some(5));
    assert_eq!(resolve_seq_at_or_before(text, 199), Some(7));
    assert_eq!(resolve_seq_at_or_before(text, 250), Some(9));
    assert_eq!(resolve_seq_at_or_before(text, u64::MAX), Some(12));
}

#[test]
fn digest_is_sha256() {
    assert_eq!(sha256_hex(b"hello"), HELLO);
    assert!(verify_segment(b"hello", HELLO));
    assert!(verify_segment(b"hello", &HELLO.to_uppercase()));
    assert!(!verify_segment(b"hullo", HELLO));
}

#[test]
fn shipped_log_reads_back() {
    let mut text = shipped_text(1, 42, HELLO);
    text.push_str("\n");
    text.push_str(&shipped_text(2, 50, &HELLO.to_uppercase()));
    let log = parse_shipped_log(&text).unwrap();
    assert_eq!(log.len(), 2);
    assert_eq!(log[0].segment_id, 1);
    assert_eq!(log[0].seal_seq, 42);
    assert_eq!(log[0].sha256_hex, HELLO);
    assert_eq!(log[1].segment_id, 2);
    assert_eq!(log[1].sha256_hex, HELLO);
}

#[test]
fn bad_shipped_lines_are_refused() {
    let good = shipped_text(1, 42, HELLO);
    let cases = [
        ("7 8", "shipped.log line 2: expected '<id> <seq> <sha256>'"),
        ("a 8 00", "shipped.log line 2: bad id"),
        ("7 b 00", "shipped.log line 2: bad seq"),
        ("7 8 00", "shipped.log line 2: bad sha256"),
    ];
    for (line, want) in cases {
        match parse_shipped_log(&format!("{}{}\n", good, line)) {
            Err(EngineError::Io(m)) => assert_eq!(m, want),
            other => panic!("{:?}", other),
        }
    }
}

#[test]
fn segment_names_are_padded() {
    assert_eq!(segment_filename(1), "wal-00000001.log");
    assert_eq!(segment_filename(0), "wal-00000000.log");
    assert_eq!(segment_filename(123456789), "wal-123456789.log");
    assert_eq!(segment_filename(u64::MAX), "wal-18446744073709551615.log");
}
