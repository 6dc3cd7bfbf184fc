use pi_server::blocklist::{
    parse_host_line, should_refresh, should_skip_source, signal_blocked_domain_refresh,
    source_outcome, take_lines, BlockListSource, RefreshCoordinator, WEEK_MS,
};
use pi_server::clock::{next_maintenance_after, CivilDateTime};
use pi_server::climate::{convert, Event, EventType, Reading, ReadingError};
use pi_server::config::PiConfig;
use pi_server::supervisor::{
    monitor_decision, ErrorCounter, MonitorAction, RestartReason, UpstreamState, ERROR_LIMIT,
};
use pi_server::telemetry::{
    build_dashboard, prune_cutoff, strip_display_dot, ws_step, TimeBucket, WebError, WsAction,
    WsEvent, WsMessage,
};
use pi_server::timer::{Millis, Timer};

#[test]
fn test_r() {
    let mut arr = b"\rhello\n\rworld\n\n\nhehe".to_vec();
    let lines = take_lines(&mut arr, false);
    assert_eq!(lines, vec![b"hello".to_vec(), b"world".to_vec(), b"".to_vec(), b"".to_vec()]);
    let lines2 = take_lines(&mut arr, false);
    assert!(lines2.is_empty());
    let lines3 = take_lines(&mut arr, true);
    assert_eq!(lines3, vec![b"hehe".to_vec()]);
    assert!(arr.is_empty());
}

#[test]
fn host_lines_parse() {
    let doms = parse_host_line(&b"0.0.0.0 ads.example.com tracker.example.net # a comment".to_vec());
    let names: Vec<String> = doms.iter().map(|d| d.name()).collect();
    assert_eq!(names, vec!["ads.example.com", "tracker.example.net"]);
    assert!(parse_host_line(&b"# only a comment".to_vec()).is_empty());
    assert!(parse_host_line(&b"localhost".to_vec()).is_empty());
    assert!(parse_host_line(&b"127.0.0.1".to_vec()).is_empty());
    assert!(parse_host_line(&b"".to_vec()).is_empty());
}

#[test]
fn retry_cap() {
    let mut source = BlockListSource {
        id: 1,
        src_url: "http://feed.example/list".to_string(),
        retry_count: 0,
        domain_count: -1,
        last_updated_ms: 0,
    };
    for _ in 0..3 {
        assert!(!should_skip_source(&source));
        let (retry, count) = source_outcome(source.retry_count, None);
        source.retry_count = retry;
        source.domain_count = count;
    }
    assert_eq!(source.retry_count, 3);
    assert!(!should_skip_source(&source));
    let (retry, count) = source_outcome(source.retry_count, None);
    source.retry_count = retry;
    source.domain_count = count;
    assert_eq!(source.retry_count, 4);
    assert_eq!(source.domain_count, -1);
    // from now on the source is skipped; no attempt is made
    assert!(should_skip_source(&source));
    let (retry, count) = source_outcome(0, Some(120));
    assert_eq!((retry, count), (0, 120));
}

#[test]
fn refresh_decision() {
    let src = |count: i64| BlockListSource {
        id: 0,
        src_url: String::new(),
        retry_count: 0,
        domain_count: count,
        last_updated_ms: 0,
    };
    // all sources unfetched forces a refresh
    assert!(should_refresh(&vec![src(-1), src(-1)], Some(10), 20));
    // no recorded write forces a refresh
    assert!(should_refresh(&vec![src(5)], None, 20));
    // a fresh write within the week does not
    assert!(!should_refresh(&vec![src(5)], Some(10), 20));
    // an old write does
    assert!(should_refresh(&vec![src(5)], Some(10), 11 + WEEK_MS));
}

#[test]
fn refresh_exclusivity() {
    let mut c = RefreshCoordinator::new();
    assert!(signal_blocked_domain_refresh(&mut c));
    // while one refresh runs, operator signals are dropped
    assert!(!signal_blocked_domain_refresh(&mut c));
    assert!(!signal_blocked_domain_refresh(&mut c));
    c.finish();
    assert!(signal_blocked_domain_refresh(&mut c));
}

#[test]
fn at_most_one_child() {
    let mut s = UpstreamState::new();
    assert!(s.child_pid.is_none());
    s.note_spawned(100);
    assert_eq!(s.child_pid, Some(100));
    s.note_stopped(RestartReason::ErrorLimit);
    assert!(s.child_pid.is_none());
    assert_eq!(s.restarts, 1);
    s.note_spawned(101);
    assert_eq!(s.child_pid, Some(101));
}

#[test]
fn monitor_rules() {
    assert!(matches!(monitor_decision(true, 0, false), MonitorAction::UpdateAndRestart));
    assert!(matches!(monitor_decision(false, ERROR_LIMIT, false), MonitorAction::Restart));
    assert!(matches!(monitor_decision(false, 0, true), MonitorAction::Restart));
    assert!(matches!(monitor_decision(false, ERROR_LIMIT - 1, false), MonitorAction::Continue));
}

#[test]
fn error_counter_window() {
    let mut c = ErrorCounter::new();
    assert_eq!(c.count(), 0);
    for _ in 0..5 {
        c.inc_count();
    }
    assert_eq!(c.count(), 5);
    c.reset_count();
    assert_eq!(c.count(), 0);
}

#[test]
fn checksum_rules() {
    // 40 bits encoding the bytes [1, 2, 3, 4, 10]: 1+2+3+4 == 10
    let mut bits = Vec::new();
    for byte in [1u8, 2, 3, 4, 10] {
        for k in (0..8).rev() {
            bits.push((byte >> k) & 1);
        }
    }
    let reading = Reading::from_binary_slice(&bits).unwrap();
    assert_eq!(reading.humidity(), 258);
    assert_eq!(reading.temperature(), 772);

    // corrupt the parity byte: the read is rejected
    let last = bits.len() - 1;
    bits[last] ^= 1;
    assert_eq!(Reading::from_binary_slice(&bits), Err(ReadingError::ParityBitMismatch));

    bits[last] ^= 1;
    bits[0] = 7;
    assert!(matches!(
        Reading::from_binary_slice(&bits),
        Err(ReadingError::MalformedData(_))
    ));
    assert_eq!(
        Reading::from_binary_slice(&b"10".to_vec()),
        Err(ReadingError::WrongBitsCount)
    );
}

#[test]
fn out_of_spec_reading() {
    // bytes [0, 0, 4, 0, 4]: parity holds but 1024 tenths is too hot
    let mut bits = Vec::new();
    for byte in [0u8, 0, 4, 0, 4] {
        for k in (0..8).rev() {
            bits.push((byte >> k) & 1);
        }
    }
    assert_eq!(Reading::from_binary_slice(&bits), Err(ReadingError::OutOfSpecValue));
}

#[test]
fn next_boundary_from_clock() {
    let next = pi_server::clock::next_maintainence();
    assert_eq!((next.hour, next.minute, next.second), (2, 0, 0));
    assert!((1..=12).contains(&next.month));
    assert!((1..=31).contains(&next.day));
}

#[test]
fn convert_bits() {
    assert_eq!(convert(&vec![1, 0, 1, 0]), Ok(10));
    assert_eq!(convert(&vec![1, 1, 1, 1, 1, 1, 1, 1]), Ok(255));
    assert!(convert(&vec![0, 2]).is_err());
    assert!(convert(&vec![0; 9]).is_err());
}

#[test]
fn events_decode() {
    // encode the payload [0, 1, 0, 0, 1]: humidity 1, temperature 1
    let mut events = Vec::new();
    let mut t: u64 = 0;
    events.push(Event::new(EventType::RisingEdge, t));
    for byte in [0u8, 1, 0, 2, 3] {
        for k in (0..8).rev() {
            let bit = (byte >> k) & 1;
            t += 50;
            events.push(Event::new(EventType::RisingEdge, t));
            t += if bit == 1 { 70 } else { 25 };
            events.push(Event::new(EventType::FallingEdge, t));
        }
    }
    let reading = pi_server::climate::process_events(&events).unwrap();
    assert_eq!(reading.humidity(), 1);
    assert_eq!(reading.temperature(), 2);
}

#[test]
fn timer_test() {
    let hehe = [100u64, 9500, 10000, 1000000, 123402312];
    for s in &hehe {
        println!("{}", Millis(*s).t());
    }
    assert_eq!(Millis(100).t(), "100ms");
    assert_eq!(Millis(9500).t(), "9.5secs");
    assert_eq!(Millis(10000).t(), "10secs");
    assert_eq!(Millis(1000000).t(), "16mins 40secs");
    assert_eq!(Millis(123402312).t(), "1days 10hours 16mins");
}

#[test]
fn maintenance_boundary() {
    let base = CivilDateTime { year: 2024, month: 2, day: 28, hour: 13, minute: 30, second: 5 };
    let next = next_maintenance_after(&base);
    assert_eq!((next.year, next.month, next.day), (2024, 2, 29));
    assert_eq!((next.hour, next.minute, next.second), (2, 0, 0));

    let eoy = CivilDateTime { year: 2023, month: 12, day: 31, hour: 2, minute: 0, second: 0 };
    let next = next_maintenance_after(&eoy);
    assert_eq!((next.year, next.month, next.day), (2024, 1, 1));

    let eom = CivilDateTime { year: 2023, month: 2, day: 28, hour: 0, minute: 0, second: 0 };
    let next = next_maintenance_after(&eom);
    assert_eq!((next.year, next.month, next.day), (2023, 3, 1));
}

#[test]
fn dashboard_split() {
    let b = |ms: i64, count: i64, avg: i64, f: Option<bool>| TimeBucket {
        bucket_ms: ms,
        count,
        avg_centi_ms: avg,
        filtered: f,
    };
    let rows = vec![
        b(0, 3, 150, Some(false)),
        b(0, 5, 80, Some(true)),
        b(60, 2, 90, None),
        b(60, 4, 200, Some(false)),
    ];
    let split = build_dashboard(&rows);
    assert_eq!(split.total_count, 14);
    assert_eq!(split.reject_count, 7);
    assert_eq!(split.rejected, vec![(0, 3, 150), (60, 4, 200)]);
    assert_eq!(split.approved, vec![(0, 5, 80)]);
    assert_eq!(split.passed, vec![(60, 2, 90)]);
}

#[test]
fn display_and_fanout() {
    assert_eq!(strip_display_dot("www.example.com.".to_string()), "www.example.com");
    assert_eq!(strip_display_dot("www.example.com".to_string()), "www.example.com");
    let e = WebError::new("boom".to_string());
    assert_eq!(e.message().as_str(), "boom");
    assert_eq!(prune_cutoff(2592000001), 1);
}

#[test]
fn live_fanout_steps() {
    let mut subs: Vec<u32> = Vec::new();
    assert!(ws_step(&mut subs, WsEvent::Msg(WsMessage::Store(3))).is_empty());
    assert!(ws_step(&mut subs, WsEvent::Msg(WsMessage::Store(9))).is_empty());
    assert!(ws_step(&mut subs, WsEvent::Msg(WsMessage::Store(3))).is_empty());
    assert_eq!(subs, vec![3, 9]);

    let acts = ws_step(&mut subs, WsEvent::Msg(WsMessage::SendAll("{\"query\":1}".to_string())));
    assert_eq!(acts.len(), 2);
    match &acts[0] {
        WsAction::Transmit(id, text) => {
            assert_eq!(*id, 3);
            assert_eq!(text, "{\"query\":1}");
        }
        _ => panic!("expected a transmit"),
    }

    let acts = ws_step(&mut subs, WsEvent::Msg(WsMessage::Send(9, "hi".to_string())));
    assert!(matches!(acts[..], [WsAction::Transmit(9, _)]));
    let acts = ws_step(&mut subs, WsEvent::Msg(WsMessage::Send(7, "hi".to_string())));
    assert!(acts.is_empty());

    // a timed-out delivery drops the subscriber like an explicit drop
    let acts = ws_step(&mut subs, WsEvent::SendTimedOut(3));
    assert!(matches!(acts[..], [WsAction::Close(3)]));
    assert_eq!(subs, vec![9]);
    assert!(ws_step(&mut subs, WsEvent::Msg(WsMessage::Drop(3))).is_empty());
    let acts = ws_step(&mut subs, WsEvent::Msg(WsMessage::Drop(9)));
    assert!(matches!(acts[..], [WsAction::Close(9)]));
    assert!(subs.is_empty());
}

#[test]
fn default_config() {
    let c = PiConfig::default();
    assert_eq!(c.db_path, "server.db");
    assert_eq!(c.dns_port, 53);
    assert_eq!(c.web_port, 8080);
    assert_eq!(c.cloudflared_port, 5053);
    assert_eq!(c.db_pool, 1);
    assert!(c.dht22_pin.is_none());
}
