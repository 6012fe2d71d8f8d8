use bytes::Bytes;

use remonitor::auth::{AuthFrame, AuthOutcome, AuthState, Authentication, THROTTLE_TIME};
use remonitor::broadcast::Broadcast;
use remonitor::clients::Clients;
use remonitor::codecs::{Decoding, LineCodec};
use remonitor::config::{Config, Optional};
use remonitor::connections2::{Connection, ConnectionState, Connections, ReadOutcome, WriteOutcome};
use remonitor::monitors::{MonitorFrame, Monitors};
use remonitor::throttle::{Throttle, ThrottledOutput, MAX_THROTTLE};
use remonitor::worker::{Dispatch, Role, Transport, Worker};

const GREETING: &[u8] = b"{\"payload\":\"OK\",\"message_type\":\"status\"}\n";

fn config() -> Config {
    Config {
        auth: vec![
            ("m1".to_string(), "sec".to_string()),
            ("c1".to_string(), "sec2".to_string()),
        ],
        uds_monitor_path: None,
        uds_client_path: None,
        tcp_monitor_host: None,
        tcp_client_host: None,
        pfx_cert_path: "cert.pfx".to_string(),
        pfx_pass: "pass".to_string(),
        thread_count: 2,
        enable_log: false,
    }
}

fn payload(s: &str) -> AuthFrame {
    AuthFrame::Payload(s.as_bytes().to_vec())
}

/// Writes out everything queued on `token`, one whole buffer at a time.
fn flush(table: &mut Connections, token: u64) -> Vec<Vec<u8>> {
    table.set_readiness(token, false, true);
    let mut out = Vec::new();
    while let Some(buf) = table.next_write(token) {
        out.push(buf.to_vec());
        table.write_messages(token, WriteOutcome::Written(buf.len()));
    }
    out
}

fn worker(bus: &mut Broadcast) -> Worker {
    let sub = bus.subscribe().unwrap();
    Worker::new(config(), config(), sub, Bytes::from_static(GREETING))
}

// ---- config -------------------------------------------------------------

#[test]
fn config_transports() {
    let mut c = config();
    assert!(!c.use_uds());
    assert!(!c.use_tcp());
    c.uds_client_path = Some("/tmp/c.sock".to_string());
    assert!(!c.use_uds());
    c.uds_monitor_path = Some("/tmp/m.sock".to_string());
    assert!(c.use_uds());
    assert_eq!(c.uds_client_path(), "/tmp/c.sock");
    assert_eq!(c.uds_monitor_path(), "/tmp/m.sock");
    c.tcp_client_host = Some("0.0.0.0:5000".to_string());
    c.tcp_monitor_host = Some("0.0.0.0:5001".to_string());
    assert!(c.use_tcp());
    assert_eq!(c.tcp_client_host(), "0.0.0.0:5000");
    assert_eq!(c.tcp_monitor_host(), "0.0.0.0:5001");
}

#[test]
fn config_accepts_only_matching_credentials() {
    let c = config();
    assert!(c.accepts(b"m1", b"sec"));
    assert!(c.accepts(b"c1", b"sec2"));
    assert!(!c.accepts(b"m1", b"sec2"));
    assert!(!c.accepts(b"m2", b"sec"));
    assert!(!c.accepts(&[0xff, 0xfe], b"sec"));
}

// ---- authentication -----------------------------------------------------

#[test]
fn auth_state_steps() {
    let c = config();
    let s = AuthState::NotAuthenticated.authenticate(b"m1", &c, 5);
    assert!(matches!(&s, AuthState::ClientId(id) if id.as_slice() == b"m1"));
    let ok = s.authenticate(b"sec", &c, 6);
    assert!(matches!(ok, AuthState::Authenticated));
    let bad = s.authenticate(b"WRONG", &c, 7);
    match bad {
        AuthState::Throttled(t) => {
            assert_eq!(t.instant, 7);
            assert_eq!(t.duration, THROTTLE_TIME);
        }
        _ => panic!("expected a throttle"),
    }
}

#[test]
fn auth_invalid_utf8_id_is_throttled() {
    let c = config();
    let s = AuthState::ClientId(vec![0xc3, 0x28]);
    assert!(matches!(s.authenticate(b"sec", &c, 1), AuthState::Throttled(_)));
}

#[test]
fn auth_stale_throttle_clears() {
    let c = config();
    let s = AuthState::Throttled(Throttle::new(100, 50));
    assert!(matches!(s.authenticate(b"m1", &c, 150), AuthState::Throttled(t) if t.instant == 100));
    assert!(matches!(s.authenticate(b"m1", &c, 151), AuthState::ClientId(id) if id.as_slice() == b"m1"));
}

#[test]
fn auth_table_passes_in_one_read() {
    let mut a = Authentication::new(config());
    a.insert(7);
    let r = a.on_frames(7, &vec![payload("m1"), payload("sec"), payload("extra")], 0);
    assert_eq!(r, AuthOutcome::Authenticated { consumed: 2 });
    assert!(!a.contains(7));
}

#[test]
fn auth_table_passes_over_two_reads() {
    let mut a = Authentication::new(config());
    a.insert(7);
    assert_eq!(a.on_frames(7, &vec![payload("m1")], 0), AuthOutcome::Pending);
    assert!(a.contains(7));
    assert_eq!(a.on_frames(7, &vec![], 0), AuthOutcome::Pending);
    assert_eq!(a.on_frames(7, &vec![payload("sec")], 1), AuthOutcome::Authenticated { consumed: 1 });
    assert!(!a.contains(7));
}

#[test]
fn auth_table_malformed_frame_is_throttled() {
    let mut a = Authentication::new(config());
    a.insert(3);
    let r = a.on_frames(3, &vec![AuthFrame::Malformed], 42);
    assert_eq!(r, AuthOutcome::Throttled(Throttle::new(42, THROTTLE_TIME)));
    assert!(!a.contains(3));
}

#[test]
fn auth_table_unknown_token() {
    let mut a = Authentication::new(config());
    assert_eq!(a.on_frames(9, &vec![payload("m1")], 0), AuthOutcome::NotMine);
    a.insert(9);
    assert!(a.remove(9));
    assert!(!a.remove(9));
}

// ---- throttle -----------------------------------------------------------

#[test]
fn throttle_expiry_is_strict() {
    let t = Throttle::new(1000, 10000);
    assert!(!t.expired(0));
    assert!(!t.expired(11000));
    assert!(t.expired(11001));
}

#[test]
fn gate_denies_within_window_and_admits_after() {
    let mut g = ThrottledOutput::new();
    g.insert("10.0.0.1".to_string(), Throttle::new(1000, 10000), 1000);
    assert!(!g.gate(Some("10.0.0.1".to_string()), 1000));
    assert!(!g.gate(Some("10.0.0.1".to_string()), 11000));
    assert!(g.gate(Some("10.0.0.2".to_string()), 5000));
    assert!(g.gate(None, 5000));
    assert_eq!(g.throttled_count(), 1);
    assert!(g.gate(Some("10.0.0.1".to_string()), 11001));
    assert_eq!(g.throttled_count(), 0);
}

#[test]
fn gate_replaces_entry_of_same_key() {
    let mut g = ThrottledOutput::new();
    g.insert("k".to_string(), Throttle::new(0, 10), 0);
    g.insert("k".to_string(), Throttle::new(0, 100), 0);
    assert_eq!(g.throttled_count(), 1);
    assert!(!g.gate(Some("k".to_string()), 50));
}

#[test]
fn gate_sweeps_every_twentieth_admission() {
    let mut g = ThrottledOutput::new();
    for i in 0..21u64 {
        g.insert(format!("10.0.0.{}", i), Throttle::new(0, 10), 0);
    }
    assert_eq!(g.throttled_count(), 21);
    for _ in 0..19 {
        assert!(g.gate(Some("192.168.0.1".to_string()), 11));
    }
    assert_eq!(g.throttled_count(), 21);
    assert!(g.gate(Some("192.168.0.1".to_string()), 11));
    assert_eq!(g.throttled_count(), 0);
    assert!(g.gate(Some("192.168.0.1".to_string()), 11));
    assert!(g.throttled_count() <= 1);
}

#[test]
fn gate_cap_holds() {
    let mut g = ThrottledOutput::new();
    for i in 0..MAX_THROTTLE as u64 {
        g.insert(format!("k{}", i), Throttle::new(i, 1_000_000), 0);
    }
    assert_eq!(g.throttled_count(), MAX_THROTTLE);
    g.insert("late".to_string(), Throttle::new(0, 1_000_000), 0);
    assert_eq!(g.throttled_count(), MAX_THROTTLE);
    assert!(g.gate(Some("late".to_string()), 1));
}

#[test]
fn gate_cap_displaces_oldest_expired() {
    let mut g = ThrottledOutput::new();
    for i in 0..MAX_THROTTLE as u64 {
        let duration = if i == 5 || i == 9 { 1 } else { 1_000_000 };
        g.insert(format!("k{}", i), Throttle::new(i, duration), 0);
    }
    g.insert("late".to_string(), Throttle::new(100, 1_000_000), 100);
    assert_eq!(g.throttled_count(), MAX_THROTTLE);
    assert!(!g.gate(Some("late".to_string()), 100));
    // the entry that started earliest among the expired ones made room
    assert!(g.gate(Some("k5".to_string()), 100));
    assert_eq!(g.throttled_count(), MAX_THROTTLE);
    assert!(g.gate(Some("k9".to_string()), 100));
    assert_eq!(g.throttled_count(), MAX_THROTTLE - 1);
    assert!(!g.gate(Some("k1".to_string()), 100));
}

// ---- codec --------------------------------------------------------------

#[test]
fn codec_round_trip() {
    let mut c = LineCodec::new();
    let bytes = LineCodec::encode(b"{\"payload\":\"m1\"}");
    assert_eq!(bytes.last(), Some(&b'\n'));
    assert_eq!(c.decode(ReadOutcome::Read(bytes.len()), &bytes), Decoding::Succeeded);
    assert_eq!(c.drain(), vec![b"{\"payload\":\"m1\"}".to_vec()]);
    assert!(c.drain().is_empty());
}

#[test]
fn codec_splits_and_joins_reads() {
    let mut c = LineCodec::new();
    c.decode(ReadOutcome::Read(7), b"ab\ncd\ne");
    c.decode(ReadOutcome::Read(3), b"f\n\n");
    assert_eq!(c.drain(), vec![b"ab".to_vec(), b"cd".to_vec(), b"ef".to_vec(), Vec::new()]);
}

#[test]
fn codec_blocked_and_errors_change_nothing() {
    let mut c = LineCodec::new();
    c.decode(ReadOutcome::Read(2), b"ab");
    assert_eq!(c.decode(ReadOutcome::WouldBlock, b"x\n"), Decoding::Blocked);
    assert_eq!(c.decode(ReadOutcome::WouldBlock, b"x\n"), Decoding::Blocked);
    assert_eq!(c.decode(ReadOutcome::Read(0), b"\n"), Decoding::ConnectionError);
    assert_eq!(c.decode(ReadOutcome::Failed, b"\n"), Decoding::ConnectionError);
    assert!(c.drain().is_empty());
    c.decode(ReadOutcome::Read(1), b"\n");
    assert_eq!(c.drain(), vec![b"ab".to_vec()]);
}

// ---- connection ---------------------------------------------------------

#[test]
fn connection_short_write_keeps_remainder() {
    let mut c = Connection::new(1);
    c.push_write_buffer(Bytes::from_static(b"hello"));
    c.push_write_buffer(Bytes::from_static(b"world"));
    assert_eq!(c.buffer_count(), 2);
    assert!(c.write_buffer(WriteOutcome::Written(2)));
    assert_eq!(c.buffer_count(), 2);
    assert_eq!(c.head_buffer().unwrap().as_ref(), b"llo");
    assert!(c.write_buffer(WriteOutcome::Written(3)));
    assert_eq!(c.head_buffer().unwrap().as_ref(), b"world");
    assert!(c.write_buffer(WriteOutcome::Written(5)));
    assert_eq!(c.buffer_count(), 0);
    assert!(!c.write_buffer(WriteOutcome::Written(5)));
}

#[test]
fn connection_states() {
    let mut c = Connection::new(4);
    assert_eq!(c.token(), 4);
    assert_eq!(c.state, ConnectionState::Open);
    c.set_readiness(true, true);
    assert!(c.readable() && c.writable());
    c.push_write_buffer(Bytes::from_static(b"x"));
    assert!(c.wants_write());
    c.write_buffer(WriteOutcome::WouldBlock);
    assert_eq!(c.state, ConnectionState::Blocked);
    assert!(!c.writable());
    assert_eq!(c.buffer_count(), 1);
    c.set_readiness(false, true);
    assert_eq!(c.state, ConnectionState::Open);
    c.read(ReadOutcome::Read(0));
    assert_eq!(c.state, ConnectionState::Closed);
    assert!(!c.wants_write());
}

#[test]
fn connections_drop_closed() {
    let mut t = Connections::new();
    t.insert(Connection::new(1));
    t.insert(Connection::new(2));
    assert_eq!(t.len(), 2);
    t.push_write_buffer(1, Bytes::from_static(b"abc"));
    assert!(t.write_messages(1, WriteOutcome::Failed));
    assert!(!t.contains(1));
    assert!(t.record_read(2, ReadOutcome::Failed));
    assert!(!t.contains(2));
    assert!(!t.record_read(2, ReadOutcome::Read(1)));
}

// ---- bus ----------------------------------------------------------------

#[test]
fn bus_delivers_each_message_once_in_order() {
    let mut bus = Broadcast::new();
    let a = bus.subscribe().unwrap();
    bus.publish(&Bytes::from_static(b"one"));
    let b = bus.subscribe().unwrap();
    bus.publish(&Bytes::from_static(b"two"));
    assert_eq!(bus.try_recv(a).unwrap().as_ref(), b"one");
    assert_eq!(bus.try_recv(a).unwrap().as_ref(), b"two");
    assert!(bus.try_recv(a).is_none());
    assert_eq!(bus.try_recv(b).unwrap().as_ref(), b"two");
    assert!(bus.try_recv(b).is_none());
    bus.unsubscribe(b);
    bus.publish(&Bytes::from_static(b"three"));
    assert!(bus.try_recv(b).is_none());
    assert_eq!(bus.try_recv(a).unwrap().as_ref(), b"three");
}

// ---- scenarios ----------------------------------------------------------

#[test]
fn happy_path_client() {
    let mut bus = Broadcast::new();
    let mut w = worker(&mut bus);
    w.accept(1, Role::Monitor, Transport::Tcp);
    let r = w.on_auth_frames(1, Role::Monitor, &vec![payload("m1"), payload("sec")], 0);
    assert_eq!(r, AuthOutcome::Authenticated { consumed: 2 });
    assert!(w.monitors.connections.contains(1));
    assert!(!w.monitor_auth.contains(1));

    let frame = Bytes::from_static(b"{\"payload\":\"hi\",\"channel\":\"c\",\"message_type\":\"status\"}\n");
    assert!(w.monitors.on_frames(1, vec![MonitorFrame::Valid(frame.clone())], &mut bus));

    w.accept(2, Role::Client, Transport::Tcp);
    let r = w.on_auth_frames(2, Role::Client, &vec![payload("c1"), payload("sec2")], 1);
    assert_eq!(r, AuthOutcome::Authenticated { consumed: 2 });
    w.clients.on_bus(&mut bus);
    let out = flush(&mut w.clients.connections, 2);
    assert_eq!(out, vec![GREETING.to_vec(), frame.to_vec()]);

    let next = Bytes::from_static(b"{\"payload\":\"again\",\"channel\":\"c\",\"message_type\":\"status\"}\n");
    w.monitors.on_frames(1, vec![MonitorFrame::Valid(next.clone())], &mut bus);
    w.clients.on_bus(&mut bus);
    assert_eq!(flush(&mut w.clients.connections, 2), vec![next.to_vec()]);
    assert_eq!(flush(&mut w.monitors.connections, 1), vec![GREETING.to_vec()]);
}

#[test]
fn wrong_secret_throttles() {
    let mut bus = Broadcast::new();
    let mut w = worker(&mut bus);
    let mut gate = ThrottledOutput::new();
    let ip = "10.1.2.3".to_string();
    assert!(gate.gate(Some(ip.clone()), 0));
    w.accept(1, Role::Monitor, Transport::Tcp);
    let r = w.on_auth_frames(1, Role::Monitor, &vec![payload("m1"), payload("WRONG")], 0);
    let t = match r {
        AuthOutcome::Throttled(t) => t,
        other => panic!("expected a throttle, got {:?}", other),
    };
    assert_eq!(t, Throttle::new(0, 10000));
    assert!(!w.contains(1));
    gate.insert(ip.clone(), t, 0);
    // a second attempt within ten seconds is dropped before it reaches a worker
    assert!(!gate.gate(Some(ip.clone()), 5000));
    assert!(!gate.gate(Some(ip.clone()), 10000));
    // at 10.1 s it gets through and can authenticate
    assert!(gate.gate(Some(ip.clone()), 10100));
    w.accept(2, Role::Monitor, Transport::Tcp);
    let r = w.on_auth_frames(2, Role::Monitor, &vec![payload("m1"), payload("sec")], 10100);
    assert_eq!(r, AuthOutcome::Authenticated { consumed: 2 });
}

#[test]
fn malformed_monitor_frame() {
    let mut bus = Broadcast::new();
    let sub = bus.subscribe().unwrap();
    let mut clients = Clients::new(sub);
    clients.install(10, Bytes::from_static(GREETING));
    let mut monitors = Monitors::new();
    monitors.install(1, Bytes::from_static(GREETING));
    let err = Bytes::from_static(b"{\"payload\":\"not-json\",\"message_type\":\"error\"}\n");
    let good = Bytes::from_static(b"{\"payload\":\"x\",\"channel\":\"c\",\"message_type\":\"system\"}\n");
    assert!(monitors.on_frames(
        1,
        vec![MonitorFrame::Malformed(err.clone()), MonitorFrame::Valid(good.clone())],
        &mut bus
    ));
    assert!(monitors.connections.contains(1));
    assert_eq!(flush(&mut monitors.connections, 1), vec![GREETING.to_vec(), err.to_vec()]);
    clients.on_bus(&mut bus);
    assert_eq!(flush(&mut clients.connections, 10), vec![GREETING.to_vec(), good.to_vec()]);
    assert!(!monitors.on_frames(2, vec![MonitorFrame::Valid(good)], &mut bus));
}

#[test]
fn broadcast_fan_out() {
    let mut bus = Broadcast::new();
    let mut monitors = Monitors::new();
    for m in 0..3u64 {
        monitors.install(m, Bytes::from_static(GREETING));
    }
    let mut clients = Vec::new();
    for c in 0..4u64 {
        let mut table = Clients::new(bus.subscribe().unwrap());
        table.install(100 + c, Bytes::from_static(GREETING));
        clients.push(table);
    }
    for i in 0..100u64 {
        for m in 0..3u64 {
            let frame = Bytes::from(format!("m{}-{}\n", m, i).into_bytes());
            monitors.on_frames(m, vec![MonitorFrame::Valid(frame)], &mut bus);
        }
    }
    for (c, table) in clients.iter_mut().enumerate() {
        table.on_bus(&mut bus);
        let out = flush(&mut table.connections, 100 + c as u64);
        assert_eq!(out.len(), 301);
        assert_eq!(out[0], GREETING.to_vec());
        for m in 0..3u64 {
            let mine: Vec<Vec<u8>> = out[1..]
                .iter()
                .filter(|f| f.starts_with(format!("m{}-", m).as_bytes()))
                .cloned()
                .collect();
            let expected: Vec<Vec<u8>> =
                (0..100u64).map(|i| format!("m{}-{}\n", m, i).into_bytes()).collect();
            assert_eq!(mine, expected);
        }
    }
}

#[test]
fn uds_client_needs_no_credentials() {
    let mut bus = Broadcast::new();
    let mut w = worker(&mut bus);
    w.accept(5, Role::Client, Transport::Uds);
    assert!(w.clients.connections.contains(5));
    assert!(!w.client_auth.contains(5));
    let msg = Bytes::from_static(b"{\"payload\":\"b\",\"channel\":\"c\",\"message_type\":\"status\"}\n");
    bus.publish(&msg);
    w.clients.on_bus(&mut bus);
    assert_eq!(flush(&mut w.clients.connections, 5), vec![GREETING.to_vec(), msg.to_vec()]);
}

#[test]
fn worker_close_forgets_token() {
    let mut bus = Broadcast::new();
    let mut w = worker(&mut bus);
    w.accept(1, Role::Client, Transport::Tcp);
    assert!(w.contains(1));
    w.close(1);
    assert!(!w.contains(1));
    w.accept(2, Role::Monitor, Transport::Uds);
    w.close(2);
    assert!(!w.contains(2));
}

#[test]
fn optional_builds_only_when_enabled() {
    let mut calls = 0;
    let on = Optional::new(true, || {
        calls += 1;
        7u32
    });
    assert_eq!(on.reactor, Some(7));
    let off: Optional<u32> = Optional::new(false, || panic!("must not be built"));
    assert!(off.reactor.is_none());
    assert_eq!(calls, 1);
}

#[test]
fn bus_ids_are_fresh() {
    let mut bus = Broadcast::new();
    let a = bus.subscribe().unwrap();
    let b = bus.subscribe().unwrap();
    assert_ne!(a, b);
    bus.unsubscribe(a);
    let c = bus.subscribe().unwrap();
    assert_ne!(c, a);
    assert_ne!(c, b);
}

#[test]
fn read_messages_splits_frames() {
    let mut t = Connections::new();
    t.insert(Connection::new(1));
    let frames = vec![
        MonitorFrame::Malformed(Bytes::from_static(b"err\n")),
        MonitorFrame::Valid(Bytes::from_static(b"a\n")),
        MonitorFrame::Valid(Bytes::from_static(b"b\n")),
    ];
    let out = t.read_messages(1, &frames).unwrap();
    assert_eq!(out, vec![Bytes::from_static(b"a\n"), Bytes::from_static(b"b\n")]);
    assert_eq!(flush(&mut t, 1), vec![b"err\n".to_vec()]);
    assert!(t.read_messages(2, &frames).is_none());
}

#[test]
fn accept_routes_by_transport() {
    let mut bus = Broadcast::new();
    let mut w = worker(&mut bus);
    w.accept(1, Role::Client, Transport::Tcp);
    assert!(w.client_auth.contains(1));
    assert!(!w.clients.connections.contains(1));
    w.accept(2, Role::Monitor, Transport::Tcp);
    assert!(w.monitor_auth.contains(2));
    w.accept(3, Role::Monitor, Transport::Uds);
    assert!(w.monitors.connections.contains(3));
    assert!(!w.monitor_auth.contains(3));
    assert_eq!(flush(&mut w.monitors.connections, 3), vec![GREETING.to_vec()]);
    w.close(2);
    assert!(!w.monitor_auth.contains(2));
    assert!(w.contains(1) && w.contains(3));
}

#[test]
fn on_read_routes_frames() {
    let mut bus = Broadcast::new();
    let mut w = worker(&mut bus);
    let probe = bus.subscribe().unwrap();
    let lines: Vec<&[u8]> = vec![b"m1", b"sec", b"frame-1"];
    let auth: Vec<AuthFrame> = lines.iter().map(|l| AuthFrame::Payload(l.to_vec())).collect();
    let mon: Vec<MonitorFrame> = lines
        .iter()
        .map(|l| MonitorFrame::Valid(Bytes::from(l.to_vec())))
        .collect();
    w.accept(1, Role::Monitor, Transport::Tcp);
    let r = w.on_read(1, Role::Monitor, &auth, mon, 0, &mut bus);
    assert_eq!(r, Dispatch::Challenge(AuthOutcome::Authenticated { consumed: 2 }));
    assert_eq!(bus.try_recv(probe).unwrap().as_ref(), b"frame-1");
    assert!(bus.try_recv(probe).is_none());

    let r = w.on_read(1, Role::Monitor, &vec![], vec![MonitorFrame::Valid(Bytes::from_static(b"x"))], 1, &mut bus);
    assert_eq!(r, Dispatch::Published);
    assert_eq!(bus.try_recv(probe).unwrap().as_ref(), b"x");

    w.accept(2, Role::Client, Transport::Uds);
    let r = w.on_read(2, Role::Client, &vec![payload("hi")], vec![MonitorFrame::Valid(Bytes::from_static(b"hi"))], 1, &mut bus);
    assert_eq!(r, Dispatch::Ignored);
    assert!(bus.try_recv(probe).is_none());

    w.accept(3, Role::Client, Transport::Tcp);
    let r = w.on_read(3, Role::Client, &vec![payload("c1"), payload("nope")], vec![], 2, &mut bus);
    assert_eq!(r, Dispatch::Challenge(AuthOutcome::Throttled(Throttle::new(2, THROTTLE_TIME))));
    assert!(!w.contains(3));
}

#[test]
fn config_unique_ids() {
    let mut c = config();
    assert!(c.has_unique_ids());
    c.auth.push(("m1".to_string(), "other".to_string()));
    assert!(!c.has_unique_ids());
}
