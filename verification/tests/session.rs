//! Sessions that talk to each other, with messages as JSON.

use accesskit_remote::codec::Codec;
use accesskit_remote::codec::CodecError;
use accesskit_remote::framing::frame;
use accesskit_remote::framing::FrameError;
use accesskit_remote::messages::AppInfo;
use accesskit_remote::messages::Hello;
use accesskit_remote::messages::Message;
use accesskit_remote::messages::PeerRole;
use accesskit_remote::messages::WindowId;
use accesskit_remote::messages::PROTOCOL_VERSION;
use accesskit_remote::session::Session;
use accesskit_remote::session::SessionConfig;
use accesskit_remote::session::SessionError;
use accesskit_remote::session::SessionEvent;
use serde_json::Value;

fn text(value: &str) -> Value {
    Value::String(value.to_owned())
}

fn object(fields: Vec<(&str, Value)>) -> Value {
    let mut map = serde_json::Map::new();
    for (name, value) in fields {
        map.insert(name.to_owned(), value);
    }
    Value::Object(map)
}

fn optional(value: &Option<String>) -> Value {
    match value {
        Some(value) => text(value),
        None => Value::Null,
    }
}

fn encode(_codec: Codec, message: &Message) -> Result<Vec<u8>, CodecError> {
    let content = match message {
        Message::Hello(hello) => object(vec![
            ("version", Value::from(hello.version)),
            (
                "role",
                text(if hello.role == PeerRole::Provider { "provider" } else { "consumer" }),
            ),
            ("codecs", Value::Array(hello.codecs.iter().map(|c| text(c)).collect())),
            ("name", text(&hello.name)),
        ]),
        Message::Goodbye { reason } => object(vec![("reason", text(reason))]),
        Message::WindowAdded { window, title, app } => object(vec![
            ("window", Value::from(window.0)),
            ("title", text(title)),
            (
                "app",
                object(vec![
                    ("name", text(&app.name)),
                    ("appId", optional(&app.app_id)),
                    ("pid", app.pid.map_or(Value::Null, Value::from)),
                    ("toolkit", optional(&app.toolkit)),
                    ("toolkitVersion", optional(&app.toolkit_version)),
                ]),
            ),
        ]),
        Message::WindowRemoved { window } => object(vec![("window", Value::from(window.0))]),
        Message::TreeUpdate { window, update } => object(vec![
            ("window", Value::from(window.0)),
            ("update", serde_json::to_value(update).unwrap()),
        ]),
        Message::FocusChanged { window } => {
            object(vec![("window", window.map_or(Value::Null, |w| Value::from(w.0)))])
        }
        Message::Action { window, request } => object(vec![
            ("window", Value::from(window.0)),
            ("request", serde_json::to_value(request).unwrap()),
        ]),
        Message::Ping { seq } => object(vec![("seq", Value::from(*seq))]),
        Message::Pong { seq } => object(vec![("seq", Value::from(*seq))]),
    };
    let whole = object(vec![("t", text(message.kind())), ("c", content)]);
    serde_json::to_vec(&whole).map_err(|e| CodecError(e.to_string()))
}

fn string_of(value: &Value) -> Option<String> {
    value.as_str().map(str::to_owned)
}

fn decode(_codec: Codec, bytes: &Vec<u8>) -> Result<Message, CodecError> {
    let whole: Value = serde_json::from_slice(bytes).map_err(|e| CodecError(e.to_string()))?;
    let content = &whole["c"];
    let window = WindowId(content["window"].as_u64().unwrap_or(0));
    let seq = content["seq"].as_u64().unwrap_or(0);
    Ok(match whole["t"].as_str().unwrap_or("") {
        "hello" => Message::Hello(Hello {
            version: content["version"].as_u64().unwrap() as u32,
            role: if content["role"] == "provider" {
                PeerRole::Provider
            } else {
                PeerRole::Consumer
            },
            codecs: content["codecs"]
                .as_array()
                .unwrap()
                .iter()
                .map(|c| string_of(c).unwrap())
                .collect(),
            name: string_of(&content["name"]).unwrap(),
        }),
        "goodbye" => Message::Goodbye { reason: string_of(&content["reason"]).unwrap() },
        "windowAdded" => Message::WindowAdded {
            window,
            title: string_of(&content["title"]).unwrap(),
            app: AppInfo {
                name: string_of(&content["app"]["name"]).unwrap(),
                app_id: string_of(&content["app"]["appId"]),
                pid: content["app"]["pid"].as_u64().map(|pid| pid as u32),
                toolkit: string_of(&content["app"]["toolkit"]),
                toolkit_version: string_of(&content["app"]["toolkitVersion"]),
            },
        },
        "windowRemoved" => Message::WindowRemoved { window },
        "treeUpdate" => Message::TreeUpdate {
            window,
            update: serde_json::from_value(content["update"].clone()).unwrap(),
        },
        "focusChanged" => Message::FocusChanged {
            window: content["window"].as_u64().map(WindowId),
        },
        "action" => Message::Action {
            window,
            request: serde_json::from_value(content["request"].clone()).unwrap(),
        },
        "ping" => Message::Ping { seq },
        "pong" => Message::Pong { seq },
        other => return Err(CodecError(format!("unknown message {other}"))),
    })
}

fn raw_hello_frame(hello: Hello) -> Vec<u8> {
    let encoded = encode(Codec::HANDSHAKE, &Message::Hello(hello)).unwrap();
    frame(&encoded).unwrap()
}

fn provider() -> Session {
    Session::new(SessionConfig::new(PeerRole::Provider, "test-provider"), encode)
}

fn consumer() -> Session {
    Session::new(SessionConfig::new(PeerRole::Consumer, "test-consumer"), encode)
}

fn input(session: &mut Session, bytes: &[u8]) -> Result<Vec<SessionEvent>, SessionError> {
    session.handle_input(bytes, decode, encode)
}

fn shake_hands(p: &mut Session, c: &mut Session) {
    input(c, &p.take_output()).unwrap();
    input(p, &c.take_output()).unwrap();
}

#[test]
fn handshake_establishes_both_sides() {
    let mut p = provider();
    let mut c = consumer();
    let events = input(&mut c, &p.take_output()).unwrap();
    assert!(matches!(
        events[..],
        [SessionEvent::Established { version: 1, codec: Codec::Json }]
    ));
    let events = input(&mut p, &c.take_output()).unwrap();
    assert!(matches!(
        events[..],
        [SessionEvent::Established { version: 1, codec: Codec::Json }]
    ));
    assert!(p.is_established() && c.is_established());
}

#[test]
fn send_before_established_fails() {
    let mut p = provider();
    assert_eq!(
        p.send(&Message::Ping { seq: 1 }, encode),
        Err(SessionError::NotEstablished)
    );
}

#[test]
fn same_role_conflicts() {
    let mut p = provider();
    let other = raw_hello_frame(Hello {
        version: PROTOCOL_VERSION,
        role: PeerRole::Provider,
        codecs: vec!["json".into()],
        name: "imposter".into(),
    });
    assert_eq!(input(&mut p, &other).unwrap_err(), SessionError::RoleConflict);
    assert!(p.is_closed());
    let goodbye = p.take_output();
    assert!(!goodbye.is_empty());
}

#[test]
fn newer_peer_version_negotiates_down_to_ours() {
    let mut p = provider();
    let hello = raw_hello_frame(Hello {
        version: 999,
        role: PeerRole::Consumer,
        codecs: vec!["json".into()],
        name: "future".into(),
    });
    let events = input(&mut p, &hello).unwrap();
    assert!(matches!(
        events[..],
        [SessionEvent::Established { version: PROTOCOL_VERSION, .. }]
    ));
}

#[test]
fn version_zero_is_incompatible() {
    let mut p = provider();
    let hello = raw_hello_frame(Hello {
        version: 0,
        role: PeerRole::Consumer,
        codecs: vec!["json".into()],
        name: "ancient".into(),
    });
    assert_eq!(
        input(&mut p, &hello).unwrap_err(),
        SessionError::IncompatibleVersion { ours: PROTOCOL_VERSION, theirs: 0 }
    );
    assert!(p.is_closed());
}

#[test]
fn no_common_codec_fails() {
    let mut p = provider();
    let hello = raw_hello_frame(Hello {
        version: PROTOCOL_VERSION,
        role: PeerRole::Consumer,
        codecs: vec!["carrier-pigeon".into()],
        name: "exotic".into(),
    });
    assert_eq!(input(&mut p, &hello).unwrap_err(), SessionError::NoCommonCodec);
}

#[test]
fn ping_gets_automatic_pong() {
    let mut p = provider();
    let mut c = consumer();
    shake_hands(&mut p, &mut c);
    p.send(&Message::Ping { seq: 7 }, encode).unwrap();
    let events = input(&mut c, &p.take_output()).unwrap();
    assert!(events.is_empty());
    let events = input(&mut p, &c.take_output()).unwrap();
    match &events[..] {
        [SessionEvent::Message(Message::Pong { seq })] => assert_eq!(*seq, 7),
        other => panic!("unexpected events: {other:?}"),
    }
}

#[test]
fn goodbye_closes_peer() {
    let mut p = provider();
    let mut c = consumer();
    shake_hands(&mut p, &mut c);
    p.close("done".to_owned(), encode);
    let events = input(&mut c, &p.take_output()).unwrap();
    match &events[..] {
        [SessionEvent::Closed { reason }] => assert_eq!(reason, "done"),
        other => panic!("unexpected events: {other:?}"),
    }
    assert!(c.is_closed());
    assert!(input(&mut c, b"anything").unwrap().is_empty());
}

#[test]
fn garbage_input_fails_cleanly() {
    let mut p = provider();
    let mut c = consumer();
    shake_hands(&mut p, &mut c);
    let garbage = frame(b"not a valid message").unwrap();
    assert!(matches!(input(&mut p, &garbage), Err(SessionError::Codec(_))));
    assert!(p.is_closed());
}

#[test]
fn hello_after_handshake_is_rejected() {
    let mut p = provider();
    let mut c = consumer();
    shake_hands(&mut p, &mut c);
    let extra = raw_hello_frame(Hello {
        version: PROTOCOL_VERSION,
        role: PeerRole::Consumer,
        codecs: vec!["json".into()],
        name: "again".into(),
    });
    assert!(matches!(
        input(&mut p, &extra),
        Err(SessionError::UnexpectedMessage(_))
    ));
}

#[test]
fn send_rejects_managed_messages() {
    let mut p = provider();
    let mut c = consumer();
    shake_hands(&mut p, &mut c);
    assert!(matches!(
        p.send(&Message::Goodbye { reason: "x".into() }, encode),
        Err(SessionError::UnexpectedMessage(_))
    ));
    assert!(p.send(&Message::WindowRemoved { window: WindowId(1) }, encode).is_ok());
}

fn pump(from: &mut Session, to: &mut Session, chunk_size: usize) -> Vec<SessionEvent> {
    let bytes = from.take_output();
    let mut events = Vec::new();
    for chunk in bytes.chunks(chunk_size.max(1)) {
        events.extend(input(to, chunk).unwrap());
    }
    events
}

fn sample_tree_update() -> accesskit::TreeUpdate {
    let mut root = accesskit::Node::new(accesskit::Role::Window);
    root.set_label("New Document (Draft) - Text Editor");
    root.set_children(vec![accesskit::NodeId(1)]);
    let mut button = accesskit::Node::new(accesskit::Role::Button);
    button.set_label("Open");
    accesskit::TreeUpdate {
        nodes: vec![(accesskit::NodeId(0), root), (accesskit::NodeId(1), button)],
        tree: Some(accesskit::Tree::new(accesskit::NodeId(0))),
        tree_id: accesskit::TreeId::ROOT,
        focus: accesskit::NodeId(1),
    }
}

#[test]
fn full_conversation_over_tiny_chunks() {
    let mut provider =
        Session::new(SessionConfig::new(PeerRole::Provider, "accesskit_remoted"), encode);
    let mut consumer = Session::new(SessionConfig::new(PeerRole::Consumer, "dvc-plugin"), encode);

    let events = pump(&mut provider, &mut consumer, 3);
    assert!(matches!(
        events[..],
        [SessionEvent::Established { version: PROTOCOL_VERSION, codec: Codec::Json }]
    ));
    let events = pump(&mut consumer, &mut provider, 3);
    assert!(matches!(events[..], [SessionEvent::Established { .. }]));

    let window = WindowId(5);
    provider
        .send(
            &Message::WindowAdded {
                window,
                title: "New Document (Draft) - Text Editor".into(),
                app: AppInfo {
                    name: "gnome-text-editor".into(),
                    app_id: Some("org.gnome.TextEditor".into()),
                    pid: Some(403),
                    toolkit: Some("GTK".into()),
                    toolkit_version: None,
                },
            },
            encode,
        )
        .unwrap();
    provider
        .send(&Message::TreeUpdate { window, update: sample_tree_update() }, encode)
        .unwrap();
    provider
        .send(&Message::FocusChanged { window: Some(window) }, encode)
        .unwrap();

    let events = pump(&mut provider, &mut consumer, 3);
    assert_eq!(events.len(), 3);
    match &events[0] {
        SessionEvent::Message(Message::WindowAdded { window: w, title, app }) => {
            assert_eq!(*w, window);
            assert_eq!(title, "New Document (Draft) - Text Editor");
            assert_eq!(app.app_id.as_deref(), Some("org.gnome.TextEditor"));
        }
        other => panic!("unexpected event: {other:?}"),
    }
    match &events[1] {
        SessionEvent::Message(Message::TreeUpdate { window: w, update }) => {
            assert_eq!(*w, window);
            assert_eq!(update.nodes.len(), 2);
            assert_eq!(update.focus, accesskit::NodeId(1));
            assert!(update.tree.is_some());
        }
        other => panic!("unexpected event: {other:?}"),
    }
    match &events[2] {
        SessionEvent::Message(Message::FocusChanged { window: w }) => {
            assert_eq!(*w, Some(window));
        }
        other => panic!("unexpected event: {other:?}"),
    }

    consumer
        .send(
            &Message::Action {
                window,
                request: accesskit::ActionRequest {
                    action: accesskit::Action::Click,
                    target_tree: accesskit::TreeId::ROOT,
                    target_node: accesskit::NodeId(1),
                    data: None,
                },
            },
            encode,
        )
        .unwrap();
    let events = pump(&mut consumer, &mut provider, 3);
    match &events[..] {
        [SessionEvent::Message(Message::Action { window: w, request })] => {
            assert_eq!(*w, window);
            assert_eq!(request.target_node, accesskit::NodeId(1));
        }
        other => panic!("unexpected events: {other:?}"),
    }

    provider.close("session over".to_owned(), encode);
    let events = pump(&mut provider, &mut consumer, 3);
    match &events[..] {
        [SessionEvent::Closed { reason }] => assert_eq!(reason, "session over"),
        other => panic!("unexpected events: {other:?}"),
    }
}

#[test]
fn chunks_do_not_matter() {
    let mut reference = Vec::new();
    for size in [1, 2, 7, 1000] {
        let mut p = provider();
        let mut c = consumer();
        shake_hands(&mut p, &mut c);
        p.send(&Message::WindowRemoved { window: WindowId(4) }, encode).unwrap();
        p.send(&Message::FocusChanged { window: None }, encode).unwrap();
        let events = format!("{:?}", pump(&mut p, &mut c, size));
        reference.push(events);
    }
    assert!(reference.iter().all(|events| *events == reference[0]));
    assert!(reference[0].contains("WindowRemoved"));
}

#[test]
fn a_message_before_hello_is_rejected() {
    let mut p = provider();
    let ping = frame(&encode(Codec::Json, &Message::Ping { seq: 1 }).unwrap()).unwrap();
    assert_eq!(
        input(&mut p, &ping).unwrap_err(),
        SessionError::UnexpectedMessage("first message must be hello".into())
    );
    assert!(p.is_closed());
}

#[test]
fn an_oversized_frame_closes_the_session() {
    let mut config = SessionConfig::new(PeerRole::Provider, "small");
    config.max_frame_len = 4;
    let mut p = Session::new(config, encode);
    assert_eq!(
        input(&mut p, &frame(b"too long").unwrap()).unwrap_err(),
        SessionError::Frame(FrameError::TooLarge { len: 8, max: 4 })
    );
    assert!(p.is_closed());
}

#[test]
fn a_message_that_cannot_be_encoded_is_an_error() {
    let mut p = provider();
    let mut c = consumer();
    shake_hands(&mut p, &mut c);
    let refuse =
        |_codec: Codec, _message: &Message| -> Result<Vec<u8>, CodecError> {
            Err(CodecError("no".into()))
        };
    let sent = p.send(&Message::Ping { seq: 1 }, refuse);
    assert_eq!(sent, Err(SessionError::Codec(CodecError("no".into()))));
    assert!(p.take_output().is_empty());
}

#[test]
fn session_errors_say_what_is_wrong() {
    let said = |error: SessionError| error.message();
    assert_eq!(said(SessionError::Frame(FrameError::Empty)), "zero-length frame");
    assert_eq!(said(SessionError::Codec(CodecError("x".into()))), "codec error: x");
    assert_eq!(said(SessionError::UnexpectedMessage("y".into())), "unexpected message: y");
    assert_eq!(said(SessionError::RoleConflict), "both peers claim the same role");
    assert_eq!(
        said(SessionError::IncompatibleVersion { ours: 1, theirs: 10 }),
        "incompatible protocol versions (ours 1, theirs 10)"
    );
    assert_eq!(said(SessionError::NoCommonCodec), "no common codec");
    assert_eq!(said(SessionError::NotEstablished), "session not established");
}

#[test]
fn the_providers_order_decides_the_codec() {
    let p = provider();
    let theirs = Hello {
        version: 1,
        role: PeerRole::Consumer,
        codecs: vec!["bogus".into(), "json".into()],
        name: String::new(),
    };
    assert_eq!(p.negotiate_codec(&theirs), Some(Codec::Json));
    assert_eq!(consumer().negotiate_codec(&theirs), Some(Codec::Json));
    assert_eq!(PeerRole::Provider.opposite(), PeerRole::Consumer);
    assert_eq!(PeerRole::Consumer.opposite(), PeerRole::Provider);
}

#[test]
fn sent_messages_arrive_all_of_them_and_in_order() {
    let mut p = provider();
    let mut c = consumer();
    shake_hands(&mut p, &mut c);
    for message in [
        Message::WindowRemoved { window: WindowId(4) },
        Message::FocusChanged { window: Some(WindowId(2)) },
        Message::Pong { seq: 9 },
    ] {
        p.send(&message, encode).unwrap();
    }
    let events = input(&mut c, &p.take_output()).unwrap();
    assert!(matches!(
        events[..],
        [
            SessionEvent::Message(Message::WindowRemoved { window: WindowId(4) }),
            SessionEvent::Message(Message::FocusChanged { window: Some(WindowId(2)) }),
            SessionEvent::Message(Message::Pong { seq: 9 }),
        ]
    ));
    assert!(c.is_established() && c.take_output().is_empty());
}

/// A session fed a stream in two pieces: its events or its error, what it sends,
/// and whether it is closed.
fn fed(stream: &[u8], cut: usize) -> (String, Vec<u8>, bool) {
    let mut p = provider();
    let mut c = consumer();
    shake_hands(&mut p, &mut c);
    let mut events = Vec::new();
    for piece in [&stream[..cut], &stream[cut..]] {
        match input(&mut c, piece) {
            Ok(more) => events.extend(more),
            Err(error) => return (format!("{error:?}"), c.take_output(), c.is_closed()),
        }
    }
    (format!("{events:?}"), c.take_output(), c.is_closed())
}

#[test]
fn a_stream_cut_anywhere_is_taken_alike() {
    let said = |message: Message| frame(&encode(Codec::Json, &message).unwrap()).unwrap();
    let mut stream = said(Message::WindowRemoved { window: WindowId(4) });
    stream.extend(said(Message::Ping { seq: 7 }));
    stream.extend(said(Message::FocusChanged { window: None }));
    let mut broken = stream.clone();
    broken.extend([0, 0, 0, 0]);
    let mut ended = stream.clone();
    ended.extend(said(Message::Goodbye { reason: "done".into() }));
    ended.extend(said(Message::Ping { seq: 8 }));
    for (stream, closed) in [(&stream, false), (&broken, true), (&ended, true)] {
        let whole = fed(stream, 0);
        assert_eq!(whole.2, closed);
        assert!(!whole.1.is_empty(), "the ping is answered");
        for cut in 1..=stream.len() {
            assert_eq!(fed(stream, cut), whole, "cut at {cut}");
        }
    }
}
