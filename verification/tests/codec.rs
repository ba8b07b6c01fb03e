//! Tests of the frame codec: parsing, serializing, and their round trip.

use stomping::connection::PublishReq;
use stomping::protocol::{AckMode, Command, Frame, FrameOrKeepAlive, Headers};
use stomping::unparser::encode_frame;
use stomping::parser::parse_frame;
use stomping::StompError;

fn unwrap_frame(item: FrameOrKeepAlive) -> Frame {
    match item {
        FrameOrKeepAlive::Frame(f) => f,
        FrameOrKeepAlive::KeepAlive => panic!("expected a frame, got a keep-alive"),
    }
}

/// Parse one item, expecting success, returning it with the bytes left over.
fn parse_one(data: &[u8]) -> (FrameOrKeepAlive, usize) {
    let result = parse_frame(data).expect("parse");
    let (item, used) = result.expect("some frame");
    (item, data.len() - used)
}

#[test]
fn parse_connect_frame_no_headers() {
    let data = b"CONNECT\n\n\0" as &[u8];

    let (item, remaining) = parse_one(data);
    let frame = unwrap_frame(item);
    assert_eq!(remaining, 0);
    assert_eq!(frame.command, Command::Connect);
}

#[test]
fn parse_connect_frame() {
    let data = b"CONNECT\naccept-version:1.2\nlogin:guest\npasscode:guest\n\n\0" as &[u8];

    let (item, remaining) = parse_one(data);
    let frame = unwrap_frame(item);
    assert_eq!(remaining, 0);
    assert_eq!(frame.command, Command::Connect);
    assert_eq!(
        frame.headers.get("login".as_bytes()),
        Some(&"guest".as_bytes().to_vec())
    );
}

#[test]
fn parse_escapes_in_headers() {
    let mut data = Vec::new();
    data.extend_from_slice(b"CONNECT\n");
    data.extend_from_slice(b"colon\\c:cr\r\n");
    data.extend_from_slice(b"slash\\\\:nl\\n\n");
    data.extend_from_slice(b"\n\0");

    let (item, remaining) = parse_one(&data);
    let frame = unwrap_frame(item);
    assert_eq!(remaining, 0);
    assert_eq!(
        frame.headers.get("colon:".as_bytes()),
        Some(&"cr\r".as_bytes().to_vec())
    );
    assert_eq!(
        frame.headers.get("slash\\".as_bytes()),
        Some(&"nl\n".as_bytes().to_vec())
    );
}

#[test]
fn parse_send_with_body() {
    let data = b"SEND\n\nwibble\0" as &[u8];

    let (item, remaining) = parse_one(data);
    let frame = unwrap_frame(item);
    assert_eq!(remaining, 0);
    assert_eq!(frame.command, Command::Send);
    assert_eq!(&*frame.body, &*b"wibble");
}

#[test]
fn parse_send_with_body_and_content_length() {
    let data = b"SEND\ncontent-length:7\n\nfoo\0bar\0" as &[u8];

    let (item, remaining) = parse_one(data);
    let frame = unwrap_frame(item);
    assert_eq!(remaining, 0);
    assert_eq!(frame.command, Command::Send);
    assert_eq!(&*frame.body, &*b"foo\0bar");
}

#[test]
fn parse_keepalive() {
    let data = b"\nstuff" as &[u8];

    let (item, remaining) = parse_one(data);
    assert_eq!(remaining, 5);
    assert_eq!(FrameOrKeepAlive::KeepAlive, item);
}

// ActiveMQ includes literal colons in their header values.
#[test]
fn activemq_example() {
    let data = b"CONNECTED\n\
            server:ActiveMQ/5.15.10\n\
            heart-beat:0,0\n\
            session:ID:nrdp-prod-01.dsg.caci.co.uk-37320-1573126237601-1:148528\n\
            version:1.2\n\
            \n\
            \0\n" as &[u8];

    let (item, remaining) = parse_one(data);
    let frame = unwrap_frame(item);
    assert_eq!(remaining, 1);
    assert_eq!(frame.command, Command::Connected);
    assert_eq!(&*frame.body, &*b"");
}

#[test]
fn rabbitmq_example() {
    let data = b"CONNECTED\n\
            server:RabbitMQ/3.7.8\n\
            session:session-c6cLWDadx0jYlG9s25R5Ag\n\
            heart-beat:0,0\n\
            version:1.2\n\
            \n\
            \0\n" as &[u8];

    let (item, remaining) = parse_one(data);
    let frame = unwrap_frame(item);
    assert_eq!(remaining, 1);
    assert_eq!(frame.command, Command::Connected);
    assert_eq!(&*frame.body, &*b"");
}

// A broker that writes raw colons into a session identifier must see the
// whole identifier come back out of the parser.
#[test]
fn escape_handling_literal_colon_in_session() {
    let data = b"CONNECTED\nsession:ID:host-1:148528\n\n\0" as &[u8];

    let (item, remaining) = parse_one(data);
    let frame = unwrap_frame(item);
    assert_eq!(remaining, 0);
    assert_eq!(
        frame.headers.get("session".as_bytes()),
        Some(&"ID:host-1:148528".as_bytes().to_vec())
    );
}

#[test]
fn parse_needs_more_bytes_on_prefixes() {
    // Every proper prefix of a whole frame asks for more input.
    let data = b"SEND\ncontent-length:7\n\nfoo\0bar\0" as &[u8];
    for cut in 0..data.len() {
        let r = parse_frame(&data[..cut]).expect("prefixes never fail");
        assert!(r.is_none(), "prefix of {} bytes should ask for more", cut);
    }
}

#[test]
fn parse_accepts_crlf_line_endings() {
    // CRLF terminates the command line and the blank line, and a CRLF
    // between frames is a keep-alive.
    let data = b"CONNECTED\r\nversion:1.2\n\r\nhello\0" as &[u8];
    let (item, remaining) = parse_one(data);
    let frame = unwrap_frame(item);
    assert_eq!(remaining, 0);
    assert_eq!(frame.command, Command::Connected);
    assert_eq!(&*frame.body, &*b"hello");

    let (item, remaining) = parse_one(b"\r\nrest");
    assert_eq!(item, FrameOrKeepAlive::KeepAlive);
    assert_eq!(remaining, 4);
}

#[test]
fn parse_rejects_unknown_command() {
    let data = b"NONSENSE\n\n\0" as &[u8];
    assert!(parse_frame(data).is_err());
}

#[test]
fn parse_rejects_bad_escape() {
    let data = b"CONNECT\nbad\\x:value\n\n\0" as &[u8];
    assert!(parse_frame(data).is_err());
}

#[test]
fn serialize_keepalive_is_one_linefeed() {
    let mut buf = Vec::new();
    encode_frame(&mut buf, &FrameOrKeepAlive::KeepAlive).expect("encode");
    assert_eq!(buf, b"\n".to_vec());
}

#[test]
fn serialize_rejects_nul_body_without_content_length() {
    let frame = Frame {
        command: Command::Send,
        headers: Headers::new(),
        body: b"\x00\x01".to_vec(),
    };
    let mut buf = Vec::new();
    let r = encode_frame(&mut buf, &FrameOrKeepAlive::Frame(frame));
    assert_eq!(r, Err(StompError::ProtocolError));
    assert!(buf.is_empty());
}

#[test]
fn serialize_allows_nul_body_with_content_length() {
    let mut headers = Headers::new();
    headers.insert(b"content-length".to_vec(), b"2".to_vec());
    let frame = Frame {
        command: Command::Send,
        headers,
        body: b"\x00\x01".to_vec(),
    };
    let mut buf = Vec::new();
    encode_frame(&mut buf, &FrameOrKeepAlive::Frame(frame)).expect("encode");
    assert_eq!(buf, b"SEND\ncontent-length:2\n\n\x00\x01\0".to_vec());
}

#[test]
fn serialize_escapes_reserved_bytes() {
    let mut headers = Headers::new();
    headers.insert(b"colon:".to_vec(), b"cr\rnl\nslash\\".to_vec());
    let frame = Frame {
        command: Command::Connect,
        headers,
        body: Vec::new(),
    };
    let mut buf = Vec::new();
    encode_frame(&mut buf, &FrameOrKeepAlive::Frame(frame)).expect("encode");
    assert_eq!(
        buf,
        b"CONNECT\ncolon\\c:cr\\rnl\\nslash\\\\\n\n\0".to_vec()
    );
}

#[test]
fn round_trip_text_frame() {
    let req = PublishReq {
        destination: "/queue/T".to_string(),
        body: b"42".to_vec(),
    };
    let frame = req.to_frame();
    let mut buf = Vec::new();
    encode_frame(&mut buf, &FrameOrKeepAlive::Frame(frame.clone())).expect("encode");
    let (item, remaining) = parse_one(&buf);
    assert_eq!(remaining, 0);
    let back = unwrap_frame(item);
    assert_eq!(back, frame);
    assert_eq!(&*back.body, &*b"42");
}

#[test]
fn round_trip_binary_body_with_nul() {
    let req = PublishReq {
        destination: "/queue/blobs".to_string(),
        body: b"\x00\x01\x02\x03".to_vec(),
    };
    let frame = req.to_frame();
    let mut buf = Vec::new();
    encode_frame(&mut buf, &FrameOrKeepAlive::Frame(frame.clone())).expect("encode");
    let (item, remaining) = parse_one(&buf);
    assert_eq!(remaining, 0);
    let back = unwrap_frame(item);
    assert_eq!(back, frame);
    assert_eq!(&*back.body, &*b"\x00\x01\x02\x03");
}

#[test]
fn round_trip_escaped_headers() {
    let mut headers = Headers::new();
    headers.insert(b"weird:key\n".to_vec(), b"w\\eird\rvalue:too".to_vec());
    headers.insert(b"plain".to_vec(), b"value".to_vec());
    let frame = Frame {
        command: Command::Message,
        headers,
        body: b"body".to_vec(),
    };
    let mut buf = Vec::new();
    encode_frame(&mut buf, &FrameOrKeepAlive::Frame(frame.clone())).expect("encode");
    let (item, remaining) = parse_one(&buf);
    assert_eq!(remaining, 0);
    assert_eq!(unwrap_frame(item), frame);
}

#[test]
fn headers_insert_is_last_write_wins() {
    let mut headers = Headers::new();
    headers.insert(b"k".to_vec(), b"one".to_vec());
    headers.insert(b"k".to_vec(), b"two".to_vec());
    assert_eq!(headers.len(), 1);
    assert_eq!(headers.get(b"k"), Some(&b"two".to_vec()));
    assert_eq!(headers.get(b"missing"), None);
}

#[test]
fn command_tokens_round_trip() {
    let commands = [
        Command::Connect,
        Command::Send,
        Command::Subscribe,
        Command::Unsubscribe,
        Command::Disconnect,
        Command::Ack,
        Command::Connected,
        Command::Message,
        Command::Receipt,
        Command::Error,
    ];
    for c in commands {
        let token = c.as_str();
        assert_eq!(Command::from_bytes(token.as_bytes()), Ok(c));
    }
    assert_eq!(
        Command::from_bytes(b"BOGUS"),
        Err(StompError::ProtocolError)
    );
}

#[test]
fn ack_mode_tokens() {
    assert_eq!(AckMode::Auto.as_str(), "auto");
    assert_eq!(AckMode::ClientIndividual.as_str(), "client-individual");
}

#[test]
fn stringify_renders_a_whole_frame() {
    let mut headers = Headers::new();
    headers.insert(b"subscription".to_vec(), b"one".to_vec());
    let frame = Frame {
        command: Command::Message,
        headers,
        body: b"42".to_vec(),
    };
    let stringy = frame.stringify();
    assert_eq!(stringy.command, Command::Message);
    assert_eq!(
        stringy.headers,
        vec![("subscription".to_string(), "one".to_string())]
    );
    assert_eq!(stringy.body, "42".to_string());
}

#[test]
fn stringify_replaces_invalid_utf8() {
    let mut headers = Headers::new();
    headers.insert(b"k".to_vec(), vec![0xff, 0x61]);
    let frame = Frame {
        command: Command::Message,
        headers,
        body: Vec::new(),
    };
    let rendered = frame.stringify_headers();
    assert_eq!(rendered.len(), 1);
    assert_eq!(rendered[0].0, "k".to_string());
    assert_eq!(rendered[0].1, "\u{FFFD}a".to_string());
}

#[test]
fn stringify_headers_decodes_text() {
    let mut headers = Headers::new();
    headers.insert(b"destination".to_vec(), b"/queue/a".to_vec());
    let frame = Frame {
        command: Command::Message,
        headers,
        body: Vec::new(),
    };
    let rendered = frame.stringify_headers();
    assert_eq!(
        rendered,
        vec![("destination".to_string(), "/queue/a".to_string())]
    );
}
