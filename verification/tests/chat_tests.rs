use chatrelay::chat::action::ChatAction;
use chatrelay::chat::action::DecodeError;
use chatrelay::chat::action::decode;
use chatrelay::chat::action::encode;
use chatrelay::chat::registry::Handle;
use chatrelay::chat::registry::Registry;
use chatrelay::chat::session::Phase;
use chatrelay::chat::session::Session;

fn connect(reg: &mut Registry, addr: &str, user: &str) -> Session {
    let mut s = Session::new(addr.to_string(), user.to_string());
    s.start(reg, Handle::new());
    s
}

fn log_of(reg: &Registry, addr: &str) -> Vec<String> {
    reg.get_log(&addr.to_string()).expect("address should be registered").clone()
}

#[test]
fn encode_shapes() {
    assert_eq!(
        encode(&ChatAction::Connect { addr: "1.2.3.4:5".to_string() }),
        "{\"Connect\":{\"addr\":\"1.2.3.4:5\"}}"
    );
    assert_eq!(
        encode(&ChatAction::Disconnect { addr: "1.2.3.4:5".to_string() }),
        "{\"Disconnect\":{\"addr\":\"1.2.3.4:5\"}}"
    );
    assert_eq!(
        encode(&ChatAction::Msg { user: "X".to_string(), text: "hello".to_string() }),
        "{\"Msg\":{\"user\":\"X\",\"text\":\"hello\"}}"
    );
}

#[test]
fn encode_escapes_specials() {
    let a = ChatAction::Msg { user: "a\"b".to_string(), text: "c\\d\ne\tf\rg".to_string() };
    let text = encode(&a);
    assert_eq!(text, "{\"Msg\":{\"user\":\"a\\\"b\",\"text\":\"c\\\\d\\ne\\tf\\rg\"}}");
    assert_eq!(decode(&text).unwrap(), a);
}

#[test]
fn round_trip_all_variants() {
    let cases = vec![
        ChatAction::Connect { addr: "127.0.0.1:1981".to_string() },
        ChatAction::Disconnect { addr: "".to_string() },
        ChatAction::Msg { user: "user one".to_string(), text: "hi there".to_string() },
        ChatAction::Msg { user: "".to_string(), text: "".to_string() },
        ChatAction::Msg { user: "q\"q".to_string(), text: "back\\slash".to_string() },
    ];
    for a in cases {
        let text = encode(&a);
        assert_eq!(decode(&text).unwrap(), a);
    }
}

#[test]
fn decode_rejects_malformed() {
    let bad = vec![
        "",
        "{}",
        "{\"Connect\":{\"addr\":\"x\"}",
        "{\"Connect\":{\"addr\":\"x}}",
        "{\"Hello\":{\"addr\":\"x\"}}",
        "{\"Msg\":{\"user\":\"x\"}}",
        "{\"Msg\":{\"user\":\"x\",\"text\":\"y\"}} ",
        "plain text",
    ];
    for text in bad {
        assert_eq!(decode(text), Err(DecodeError::MalformedAction));
    }
}

#[test]
fn scenario_first_client_connects() {
    let mut reg = Registry::new();
    assert_eq!(reg.len(), 0);
    let mut x = connect(&mut reg, "10.0.0.1:1", "X");
    // Registration happens in the broadcaster's startup step, before any
    // payload is relayed.
    assert!(reg.contains(&"10.0.0.1:1".to_string()));
    assert_eq!(reg.len(), 1);
    // Relay the queued Connect: no one else is connected, so only X's own
    // handle sees it.
    x.broadcaster_step(&mut reg);
    let log = log_of(&reg, "10.0.0.1:1");
    assert_eq!(log, vec!["{\"Connect\":{\"addr\":\"10.0.0.1:1\"}}".to_string()]);
}

#[test]
fn scenario_second_client_connect_is_broadcast() {
    let mut reg = Registry::new();
    let mut x = connect(&mut reg, "10.0.0.1:1", "X");
    x.broadcaster_step(&mut reg);
    let mut y = connect(&mut reg, "10.0.0.2:2", "Y");
    y.broadcaster_step(&mut reg);
    // Y registered before its Connect was queued, so both X and Y see it.
    let y_connect = "{\"Connect\":{\"addr\":\"10.0.0.2:2\"}}".to_string();
    assert!(log_of(&reg, "10.0.0.1:1").contains(&y_connect));
    assert!(log_of(&reg, "10.0.0.2:2").contains(&y_connect));
}

#[test]
fn scenario_message_reaches_everyone() {
    let mut reg = Registry::new();
    let mut x = connect(&mut reg, "10.0.0.1:1", "X");
    x.broadcaster_step(&mut reg);
    let mut y = connect(&mut reg, "10.0.0.2:2", "Y");
    y.broadcaster_step(&mut reg);

    x.reader_text("hello".to_string());
    x.broadcaster_step(&mut reg);
    let msg = "{\"Msg\":{\"user\":\"X\",\"text\":\"hello\"}}".to_string();
    assert!(log_of(&reg, "10.0.0.1:1").contains(&msg));
    assert!(log_of(&reg, "10.0.0.2:2").contains(&msg));
}

#[test]
fn scenario_disconnect_excludes_self() {
    let mut reg = Registry::new();
    let mut x = connect(&mut reg, "10.0.0.1:1", "X");
    x.broadcaster_step(&mut reg);
    let mut y = connect(&mut reg, "10.0.0.2:2", "Y");
    y.broadcaster_step(&mut reg);

    x.reader_close();
    let removed = x.broadcaster_step(&mut reg);
    assert_eq!(x.phase(), Phase::Done);

    // X's entry is removed strictly before the Disconnect broadcast: its
    // own handle never sees the Disconnect.
    let x_log = removed.expect("X's handle should have been removed").sent;
    let x_disconnect = "{\"Disconnect\":{\"addr\":\"10.0.0.1:1\"}}".to_string();
    assert!(!x_log.contains(&x_disconnect));
    // Y still receives it, and X is gone from the registry.
    assert!(log_of(&reg, "10.0.0.2:2").contains(&x_disconnect));
    assert!(!reg.contains(&"10.0.0.1:1".to_string()));
    assert_eq!(reg.len(), 1);
}

#[test]
fn write_failure_is_isolated() {
    let mut reg = Registry::new();
    let mut x = connect(&mut reg, "10.0.0.1:1", "X");
    x.broadcaster_step(&mut reg);
    let mut y = connect(&mut reg, "10.0.0.2:2", "Y");
    y.broadcaster_step(&mut reg);
    let mut z = connect(&mut reg, "10.0.0.3:3", "Z");
    z.broadcaster_step(&mut reg);

    // Y's peer is gone, but its entry has not yet been cleaned up.
    reg.mark_closed(&"10.0.0.2:2".to_string());

    x.reader_text("still there?".to_string());
    x.broadcaster_step(&mut reg);
    let msg = "{\"Msg\":{\"user\":\"X\",\"text\":\"still there?\"}}".to_string();
    // The failed write to Y does not stop delivery to X and Z.
    assert!(log_of(&reg, "10.0.0.1:1").contains(&msg));
    assert!(log_of(&reg, "10.0.0.3:3").contains(&msg));
    assert!(!log_of(&reg, "10.0.0.2:2").contains(&msg));
    // And the registry itself is unharmed.
    assert_eq!(reg.len(), 3);
}

#[test]
fn per_session_order_is_connect_msgs_disconnect() {
    let mut reg = Registry::new();
    let mut x = connect(&mut reg, "10.0.0.1:1", "X");
    x.broadcaster_step(&mut reg);
    let mut y = connect(&mut reg, "10.0.0.9:9", "watcher");
    y.broadcaster_step(&mut reg);

    x.reader_text("one".to_string());
    x.reader_text("two".to_string());
    x.reader_close();
    while x.has_pending() {
        x.broadcaster_step(&mut reg);
    }

    // The watcher sees X's actions in exactly the produced order.
    let log = log_of(&reg, "10.0.0.9:9");
    let from_x: Vec<&String> = log.iter().filter(|p| p.contains("10.0.0.1:1") || p.contains("\"user\":\"X\"")).collect();
    assert_eq!(from_x.len(), 3);
    assert_eq!(from_x[0], "{\"Msg\":{\"user\":\"X\",\"text\":\"one\"}}");
    assert_eq!(from_x[1], "{\"Msg\":{\"user\":\"X\",\"text\":\"two\"}}");
    assert_eq!(from_x[2], "{\"Disconnect\":{\"addr\":\"10.0.0.1:1\"}}");
}

#[test]
fn scenario_many_clients() {
    let mut reg = Registry::new();
    let mut sessions: Vec<Session> = Vec::new();
    for i in 0..50 {
        let addr = format!("10.1.0.{}:{}", i, 1000 + i);
        let user = format!("client{}", i);
        let mut s = connect(&mut reg, &addr, &user);
        s.broadcaster_step(&mut reg);
        sessions.push(s);
    }
    assert_eq!(reg.len(), 50);

    let mut expected: Vec<String> = Vec::new();
    for (i, s) in sessions.iter_mut().enumerate() {
        s.reader_text(format!("message {}", i));
        s.broadcaster_step(&mut reg);
        expected.push(format!(
            "{{\"Msg\":{{\"user\":\"client{}\",\"text\":\"message {}\"}}}}",
            i, i
        ));
    }

    let mut removed: Vec<Vec<String>> = Vec::new();
    for s in sessions.iter_mut() {
        s.reader_close();
        while s.has_pending() {
            if let Some(h) = s.broadcaster_step(&mut reg) {
                removed.push(h.sent);
            }
        }
        assert_eq!(s.phase(), Phase::Done);
    }
    // The registry count returns to zero only after all disconnect.
    assert_eq!(reg.len(), 0);
    assert_eq!(removed.len(), 50);

    // Every client received all fifty messages (set equality, not order).
    for log in removed {
        let got: Vec<&String> = log.iter().filter(|p| p.starts_with("{\"Msg\"")).collect();
        assert_eq!(got.len(), 50);
        for want in expected.iter() {
            assert!(got.iter().any(|p| *p == want));
        }
    }
}

#[test]
fn round_trip_non_ascii_text() {
    let a = ChatAction::Msg { user: "caf\u{e9}".to_string(), text: "na\u{ef}ve \u{263a}".to_string() };
    let text = encode(&a);
    assert_eq!(decode(&text).unwrap(), a);
}

#[test]
fn session_phases() {
    let mut reg = Registry::new();
    let mut s = Session::new("10.0.0.7:7".to_string(), "X".to_string());
    assert_eq!(s.phase(), Phase::Starting);
    s.start(&mut reg, Handle::new());
    assert_eq!(s.phase(), Phase::Relaying);
    assert!(s.has_pending());
    s.broadcaster_step(&mut reg);
    // The queue is drained but the reader is still active: not Done yet.
    assert_eq!(s.phase(), Phase::Relaying);
    assert!(!s.has_pending());
    s.reader_close();
    s.broadcaster_step(&mut reg);
    // Queue empty and closed: the broadcaster is finished, and this
    // session's registry entry is guaranteed absent.
    assert_eq!(s.phase(), Phase::Done);
    assert!(!reg.contains(&"10.0.0.7:7".to_string()));
}

#[test]
fn control_characters_use_unicode_escapes() {
    let a = ChatAction::Msg { user: "X".to_string(), text: "a\u{1}b\u{1f}c\u{8}".to_string() };
    let text = encode(&a);
    // Control characters without a short named escape come out as \u00XX,
    // so the frame is plain JSON for any consumer.
    assert_eq!(text, "{\"Msg\":{\"user\":\"X\",\"text\":\"a\\u0001b\\u001fc\\u0008\"}}");
    assert_eq!(decode(&text).unwrap(), a);
    // Non-canonical forms are rejected: uppercase digits, a named escape's
    // code point, or a bare control character in plain position.
    assert!(decode("{\"Connect\":{\"addr\":\"\\u001F\"}}").is_err());
    assert!(decode("{\"Connect\":{\"addr\":\"\\u000a\"}}").is_err());
    assert!(decode("{\"Connect\":{\"addr\":\"\u{1}\"}}").is_err());
}
