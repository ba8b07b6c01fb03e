//! Tests of the pacemaker, the request frames, the routing decisions, and
//! the handshake judgement.

use stomping::connection::{
    ack_id_of, check_consumed, process_connected, reader_on_item, writer_on_request, AckReq,
    ClientReq, ConnectReq, ConnectionState, DisconnectReq, PublishReq, ReaderAction, SubscribeReq,
};
use stomping::pacemaker::{negotiate, parse_keepalive, some_non_zero, BeatAction, Pacemaker};
use stomping::protocol::{AckMode, Command, Frame, FrameOrKeepAlive, Headers};
use stomping::StompError;

#[test]
fn keepalives_parse_zero_as_none_0() {
    assert_eq!(
        parse_keepalive(Some(b"0,0")).expect("parse_keepalive"),
        (None, None)
    );
}

#[test]
fn keepalives_parse_zero_as_none_1() {
    assert_eq!(
        parse_keepalive(Some(b"0,42")).expect("parse_keepalive"),
        (None, Some(42))
    );
}

#[test]
fn keepalives_parse_zero_as_none_2() {
    assert_eq!(
        parse_keepalive(Some(b"42,0")).expect("parse_keepalive"),
        (Some(42), None)
    );
}

#[test]
fn keepalive_absent_header_means_disabled() {
    assert_eq!(parse_keepalive(None).expect("parse_keepalive"), (None, None));
}

#[test]
fn keepalive_parse_trims_and_errors() {
    assert_eq!(
        parse_keepalive(Some(b" 10,20 ")).expect("parse_keepalive"),
        (Some(10), Some(20))
    );
    assert_eq!(parse_keepalive(Some(b"10")), Err(StompError::ProtocolError));
    assert_eq!(parse_keepalive(Some(b"a,b")), Err(StompError::ParseInt));
    assert_eq!(parse_keepalive(Some(b"1,b")), Err(StompError::ParseInt));
    assert_eq!(
        parse_keepalive(Some(b"\xff,1")),
        Err(StompError::Utf8)
    );
}

#[test]
fn some_non_zero_maps_zero_to_none() {
    assert_eq!(some_non_zero(0), None);
    assert_eq!(some_non_zero(7), Some(7));
}

// Both directions take the larger of the two proposals, and only when both
// sides propose one; zero (parsed to none) disables a direction, and no
// client proposal disables everything.
#[test]
fn negotiation_takes_maximum_when_both_set() {
    assert_eq!(negotiate(Some(150), Some(100), Some(200)), (Some(150), Some(200)));
    assert_eq!(negotiate(Some(10), Some(10), Some(10)), (Some(10), Some(10)));
    assert_eq!(negotiate(Some(10), None, Some(42)), (None, Some(42)));
    assert_eq!(negotiate(Some(10), Some(42), None), (Some(42), None));
    assert_eq!(negotiate(None, Some(42), Some(42)), (None, None));
    assert_eq!(negotiate(Some(10), None, None), (None, None));
}

// `heart-beat: 0,0` disables both directions.
#[test]
fn heartbeat_zero_zero_disables_both() {
    let (sx, sy) = parse_keepalive(Some(b"0,0")).expect("parse_keepalive");
    assert_eq!(negotiate(Some(10), sx, sy), (None, None));
}

// `heart-beat: 0,42` disables server-to-client and enables client-to-server
// at 42 ms when the client proposed one.
#[test]
fn heartbeat_zero_fortytwo_enables_one_direction() {
    let (sx, sy) = parse_keepalive(Some(b"0,42")).expect("parse_keepalive");
    let (s2c, c2s) = negotiate(Some(10), sx, sy);
    assert_eq!(s2c, None);
    assert_eq!(c2s, Some(42));
    // Without a client proposal nothing is enabled.
    assert_eq!(negotiate(None, sx, sy), (None, None));
}

// With a 10 ms inbound interval and no reads for 20 ms the peer has failed;
// at 19 ms the pacemaker still retries.
#[test]
fn peer_failed_detection() {
    let p = Pacemaker::new(None, Some(10), 0);
    assert_eq!(p.on_timeout(20), BeatAction::PeerFailed);
    assert_eq!(p.on_timeout(19), BeatAction::Retry);
}

// With a 10 ms outbound interval and no writes for 10 ms the client heart
// must beat; at 9 ms the pacemaker still retries.
#[test]
fn client_heartbeat_emission() {
    let p = Pacemaker::new(Some(10), None, 0);
    assert_eq!(p.on_timeout(10), BeatAction::SendClientHeart);
    assert_eq!(p.on_timeout(9), BeatAction::Retry);
}

#[test]
fn outbound_heartbeat_checked_before_peer_failure() {
    let p = Pacemaker::new(Some(10), Some(10), 0);
    // Both deadlines are past: the cheap action wins.
    assert_eq!(p.on_timeout(50), BeatAction::SendClientHeart);
}

#[test]
fn observations_reset_the_deadlines() {
    let mut p = Pacemaker::new(Some(10), Some(10), 0);
    p.observe_write(45);
    assert_eq!(p.on_timeout(50), BeatAction::PeerFailed);
    p.observe_read(49);
    assert_eq!(p.on_timeout(50), BeatAction::Retry);
}

#[test]
fn next_timeout_picks_the_nearer_deadline() {
    // Inbound wait is (0 + 10 - 0) * 2 = 20; outbound (0 + 30 - 0) / 2 = 15.
    let p = Pacemaker::new(Some(30), Some(10), 0);
    assert_eq!(p.next_timeout(0), Some(15));
    // A deadline already past wakes at once.
    let q = Pacemaker::new(None, Some(10), 0);
    assert_eq!(q.next_timeout(0), Some(20));
    assert_eq!(q.next_timeout(100), Some(1));
    // No deadlines at all: block indefinitely.
    let r = Pacemaker::new(None, None, 0);
    assert_eq!(r.next_timeout(123), None);
}

#[test]
fn connect_req_includes_headers() {
    let mut extra = Headers::new();
    extra.insert("x-canary".as_bytes().to_vec(), "Hi!".as_bytes().to_vec());
    let req = ConnectReq {
        credentials: None,
        keepalive: None,
        headers: extra,
    };
    let fr = req.to_frame();

    assert_eq!(
        fr.headers
            .get("x-canary".as_bytes())
            .map(|v| String::from_utf8_lossy(v).into_owned()),
        Some("Hi!".to_string()),
    )
}

#[test]
fn subscribe_req_includes_headers() {
    let mut extra = Headers::new();
    extra.insert("x-canary".as_bytes().to_vec(), "Hi!".as_bytes().to_vec());
    let req = SubscribeReq {
        ack_mode: AckMode::Auto,
        destination: Default::default(),
        id: Default::default(),
        headers: extra,
    };
    let fr = req.to_frame();

    assert_eq!(
        fr.headers
            .get("x-canary".as_bytes())
            .map(|v| String::from_utf8_lossy(v).into_owned()),
        Some("Hi!".to_string()),
    )
}

#[test]
fn connect_req_with_credentials_and_heartbeat() {
    let req = ConnectReq {
        credentials: Some(("guest".to_string(), "secret".to_string())),
        keepalive: Some(500),
        headers: Headers::new(),
    };
    let fr = req.to_frame();
    assert_eq!(fr.command, Command::Connect);
    assert_eq!(fr.headers.get(b"accept-version"), Some(&b"1.2".to_vec()));
    assert_eq!(fr.headers.get(b"heart-beat"), Some(&b"500,500".to_vec()));
    assert_eq!(fr.headers.get(b"login"), Some(&b"guest".to_vec()));
    assert_eq!(fr.headers.get(b"passcode"), Some(&b"secret".to_vec()));
    assert!(fr.body.is_empty());
}

#[test]
fn subscribe_req_frame_shape() {
    let req = SubscribeReq {
        destination: "/queue/T".to_string(),
        id: b"one".to_vec(),
        ack_mode: AckMode::ClientIndividual,
        headers: Headers::new(),
    };
    let fr = req.to_frame();
    assert_eq!(fr.command, Command::Subscribe);
    assert_eq!(fr.headers.get(b"destination"), Some(&b"/queue/T".to_vec()));
    assert_eq!(fr.headers.get(b"id"), Some(&b"one".to_vec()));
    assert_eq!(fr.headers.get(b"ack"), Some(&b"client-individual".to_vec()));
}

#[test]
fn publish_req_announces_content_length() {
    let req = PublishReq {
        destination: "/queue/T".to_string(),
        body: b"hello".to_vec(),
    };
    let fr = req.to_frame();
    assert_eq!(fr.command, Command::Send);
    assert_eq!(fr.headers.get(b"content-length"), Some(&b"5".to_vec()));
    assert_eq!(fr.body, b"hello".to_vec());
}

#[test]
fn ack_and_disconnect_req_frames() {
    let fr = AckReq { message_id: b"m-1".to_vec() }.to_frame();
    assert_eq!(fr.command, Command::Ack);
    assert_eq!(fr.headers.get(b"id"), Some(&b"m-1".to_vec()));

    let fr = DisconnectReq { id: b"77".to_vec() }.to_frame();
    assert_eq!(fr.command, Command::Disconnect);
    assert_eq!(fr.headers.get(b"receipt"), Some(&b"77".to_vec()));
}

fn message_frame(subscription: &[u8], body: &[u8]) -> Frame {
    let mut headers = Headers::new();
    headers.insert(b"subscription".to_vec(), subscription.to_vec());
    headers.insert(b"destination".to_vec(), b"/queue/T".to_vec());
    Frame {
        command: Command::Message,
        headers,
        body: body.to_vec(),
    }
}

// Subscribe, then consume what the broker sends back: the subscription is
// registered before the frame is written, so the message routes home.
#[test]
fn subscribe_then_message_routes_home() {
    let mut state = ConnectionState::new();
    let req = ClientReq::Subscribe(SubscribeReq {
        destination: "/queue/T".to_string(),
        id: b"one".to_vec(),
        ack_mode: AckMode::Auto,
        headers: Headers::new(),
    });
    let frame = writer_on_request(&mut state, &req);
    assert_eq!(frame.command, Command::Subscribe);

    let incoming = message_frame(b"one", b"42");
    match reader_on_item(&mut state, FrameOrKeepAlive::Frame(incoming)) {
        ReaderAction::Deliver(id, f) => {
            assert_eq!(id, b"one".to_vec());
            let got = check_consumed(f).expect("consume_next");
            assert_eq!(got.body, b"42".to_vec());
        }
        other => panic!("expected delivery, got {:?}", action_name(&other)),
    }
}

fn action_name(a: &ReaderAction) -> &'static str {
    match a {
        ReaderAction::Deliver(_, _) => "Deliver",
        ReaderAction::CompleteReceipt(_) => "CompleteReceipt",
        ReaderAction::Ignore => "Ignore",
        ReaderAction::Fail(_) => "Fail",
    }
}

#[test]
fn message_for_unknown_subscription_is_dropped() {
    let mut state = ConnectionState::new();
    let incoming = message_frame(b"nobody", b"42");
    match reader_on_item(&mut state, FrameOrKeepAlive::Frame(incoming)) {
        ReaderAction::Ignore => {}
        other => panic!("expected a drop, got {:?}", action_name(&other)),
    }
}

#[test]
fn message_without_subscription_header_fails() {
    let mut state = ConnectionState::new();
    let mut headers = Headers::new();
    headers.insert(b"destination".to_vec(), b"/queue/T".to_vec());
    let incoming = Frame {
        command: Command::Message,
        headers,
        body: Vec::new(),
    };
    match reader_on_item(&mut state, FrameOrKeepAlive::Frame(incoming)) {
        ReaderAction::Fail(e) => assert_eq!(e, StompError::ProtocolError),
        other => panic!("expected failure, got {:?}", action_name(&other)),
    }
}

#[test]
fn receipt_completes_its_waiter_once() {
    let mut state = ConnectionState::new();
    let frame = writer_on_request(
        &mut state,
        &ClientReq::Disconnect(DisconnectReq { id: b"9".to_vec() }),
    );
    assert_eq!(frame.headers.get(b"receipt"), Some(&b"9".to_vec()));

    let mut headers = Headers::new();
    headers.insert(b"receipt-id".to_vec(), b"9".to_vec());
    let receipt = Frame {
        command: Command::Receipt,
        headers,
        body: Vec::new(),
    };
    match reader_on_item(&mut state, FrameOrKeepAlive::Frame(receipt.clone())) {
        ReaderAction::CompleteReceipt(id) => assert_eq!(id, b"9".to_vec()),
        other => panic!("expected completion, got {:?}", action_name(&other)),
    }
    // The waiter is gone now: the same receipt is ignored.
    match reader_on_item(&mut state, FrameOrKeepAlive::Frame(receipt)) {
        ReaderAction::Ignore => {}
        other => panic!("expected a drop, got {:?}", action_name(&other)),
    }
}

#[test]
fn keepalives_and_errors_are_not_fatal_to_the_reader() {
    let mut state = ConnectionState::new();
    match reader_on_item(&mut state, FrameOrKeepAlive::KeepAlive) {
        ReaderAction::Ignore => {}
        other => panic!("expected a drop, got {:?}", action_name(&other)),
    }
    let error = Frame {
        command: Command::Error,
        headers: Headers::new(),
        body: b"oops".to_vec(),
    };
    match reader_on_item(&mut state, FrameOrKeepAlive::Frame(error)) {
        ReaderAction::Ignore => {}
        other => panic!("expected a drop, got {:?}", action_name(&other)),
    }
}

fn connected_frame(heartbeat: Option<&[u8]>) -> Frame {
    let mut headers = Headers::new();
    headers.insert(b"version".to_vec(), b"1.2".to_vec());
    if let Some(hb) = heartbeat {
        headers.insert(b"heart-beat".to_vec(), hb.to_vec());
    }
    Frame {
        command: Command::Connected,
        headers,
        body: Vec::new(),
    }
}

#[test]
fn handshake_negotiates_heartbeats() {
    let item = Some(FrameOrKeepAlive::Frame(connected_frame(Some(b"100,200"))));
    let (frame, c2s, s2c) = process_connected(item, Some(150)).expect("connect");
    assert_eq!(frame.command, Command::Connected);
    assert_eq!(c2s, Some(200));
    assert_eq!(s2c, Some(150));
}

#[test]
fn handshake_without_heartbeat_header_disables_both() {
    let item = Some(FrameOrKeepAlive::Frame(connected_frame(None)));
    let (_, c2s, s2c) = process_connected(item, Some(150)).expect("connect");
    assert_eq!(c2s, None);
    assert_eq!(s2c, None);
}

// A keep-alive before the first frame of the handshake is a protocol error.
#[test]
fn handshake_rejects_leading_keepalive() {
    let r = process_connected(Some(FrameOrKeepAlive::KeepAlive), None);
    assert_eq!(r, Err(StompError::ProtocolError));
}

#[test]
fn handshake_rejects_closed_transport() {
    assert_eq!(process_connected(None, None), Err(StompError::ProtocolError));
}

#[test]
fn handshake_surfaces_server_error_frame() {
    let error = Frame {
        command: Command::Error,
        headers: Headers::new(),
        body: b"denied".to_vec(),
    };
    let r = process_connected(Some(FrameOrKeepAlive::Frame(error.clone())), None);
    assert_eq!(r, Err(StompError::StompError(error)));
}

#[test]
fn handshake_rejects_other_commands() {
    let odd = Frame {
        command: Command::Message,
        headers: Headers::new(),
        body: Vec::new(),
    };
    let r = process_connected(Some(FrameOrKeepAlive::Frame(odd)), None);
    assert_eq!(r, Err(StompError::ProtocolError));
}

#[test]
fn ack_needs_the_ack_header() {
    let mut headers = Headers::new();
    headers.insert(b"subscription".to_vec(), b"one".to_vec());
    assert_eq!(ack_id_of(&headers), Err(StompError::NoAckHeader));

    headers.insert(b"ack".to_vec(), b"m-2".to_vec());
    let id = ack_id_of(&headers).expect("ack");
    assert_eq!(id, b"m-2".to_vec());
    let fr = AckReq { message_id: id }.to_frame();
    assert_eq!(fr.headers.get(b"id"), Some(&b"m-2".to_vec()));
}

#[test]
fn consume_rejects_non_message_frames() {
    let receipt = Frame {
        command: Command::Receipt,
        headers: Headers::new(),
        body: Vec::new(),
    };
    assert_eq!(check_consumed(receipt), Err(StompError::ProtocolError));
}
