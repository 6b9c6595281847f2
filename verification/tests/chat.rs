use chat_relay::server::{ChatServer, ClientMessage, Connect, Disconnect, Join, ListRooms};
use chat_relay::session::{Action, Frame, Session, CLIENT_TIMEOUT, HEARTBEAT_INTERVAL};

fn pairs(deliveries: &[chat_relay::server::Delivery]) -> Vec<(usize, String)> {
    deliveries.iter().map(|d| (d.to, d.msg.0.clone())).collect()
}

#[test]
fn connect_notifies_existing_members_and_counts() {
    let mut broker = ChatServer::new();
    let (id1, out1) = broker.handle_connect(Connect { visitor_count: 0 });
    // the room was empty: nobody hears the arrival, only the newcomer hears
    // the visitor count
    assert_eq!(pairs(&out1), vec![(id1, "Total visitors 0".to_string())]);

    let (id2, out2) = broker.handle_connect(Connect { visitor_count: 1 });
    assert_ne!(id1, id2);
    assert_eq!(
        pairs(&out2),
        vec![
            (id1, "Someone joined!!".to_string()),
            (id1, "Total visitors 1".to_string()),
            (id2, "Total visitors 1".to_string()),
        ]
    );
}

#[test]
fn visitor_notice_strictly_increases() {
    let mut broker = ChatServer::new();
    let (_id1, out1) = broker.handle_connect(Connect { visitor_count: 0 });
    let (_id2, out2) = broker.handle_connect(Connect { visitor_count: 1 });
    let (_id3, out3) = broker.handle_connect(Connect { visitor_count: 2 });
    let last = |out: &[chat_relay::server::Delivery]| out.last().unwrap().msg.0.clone();
    assert_eq!(last(&out1), "Total visitors 0");
    assert_eq!(last(&out2), "Total visitors 1");
    assert_eq!(last(&out3), "Total visitors 2");
}

#[test]
fn list_rooms_default_only() {
    let broker = ChatServer::new();
    let rooms = broker.handle_list_rooms(ListRooms);
    assert_eq!(rooms, vec!["Main".to_string()]);
    // the session turns the reply into exactly one text frame
    let acts = Session::rooms_reply(rooms);
    assert_eq!(acts.len(), 1);
    match &acts[0] {
        Action::Text(t) => assert_eq!(t, "Main"),
        _ => panic!("expected a text action"),
    }
}

#[test]
fn joined_client_stops_hearing_old_room() {
    let mut broker = ChatServer::new();
    let (a, _) = broker.handle_connect(Connect { visitor_count: 0 });
    let (b, _) = broker.handle_connect(Connect { visitor_count: 1 });
    let (c, _) = broker.handle_connect(Connect { visitor_count: 2 });
    let join_out = broker.handle_join(Join { id: b, name: "Sports".to_string() });
    // b's departure is announced to the two staying in Main, its arrival to
    // the new room, which holds only b
    assert_eq!(
        pairs(&join_out),
        vec![
            (a, "Someone Disconnected!!".to_string()),
            (c, "Someone Disconnected!!".to_string()),
            (b, "Someone Connected!!".to_string()),
        ]
    );
    let out = broker.handle_client_message(ClientMessage {
        id: a,
        msg: "hello".to_string(),
        room: "Main".to_string(),
    });
    assert_eq!(pairs(&out), vec![(c, "hello".to_string())]);
}

#[test]
fn message_reaches_new_room_only() {
    let mut broker = ChatServer::new();
    let (_a, _) = broker.handle_connect(Connect { visitor_count: 0 });
    let (b, _) = broker.handle_connect(Connect { visitor_count: 1 });
    let (c, _) = broker.handle_connect(Connect { visitor_count: 2 });
    broker.handle_join(Join { id: b, name: "Sports".to_string() });
    broker.handle_join(Join { id: c, name: "Sports".to_string() });
    let out = broker.handle_client_message(ClientMessage {
        id: c,
        msg: "yo".to_string(),
        room: "Sports".to_string(),
    });
    assert_eq!(pairs(&out), vec![(b, "yo".to_string())]);
}

#[test]
fn sender_never_receives_own_message() {
    let mut broker = ChatServer::new();
    let (a, _) = broker.handle_connect(Connect { visitor_count: 0 });
    let (b, _) = broker.handle_connect(Connect { visitor_count: 1 });
    let out = broker.handle_client_message(ClientMessage {
        id: a,
        msg: "hi".to_string(),
        room: "Main".to_string(),
    });
    assert_eq!(pairs(&out), vec![(b, "hi".to_string())]);
    assert!(out.iter().all(|d| d.to != a));
}

#[test]
fn message_to_unknown_room_is_dropped_silently() {
    let mut broker = ChatServer::new();
    let (a, _) = broker.handle_connect(Connect { visitor_count: 0 });
    let out = broker.handle_client_message(ClientMessage {
        id: a,
        msg: "anyone?".to_string(),
        room: "Nowhere".to_string(),
    });
    assert!(out.is_empty());
}

#[test]
fn join_creates_missing_room() {
    let mut broker = ChatServer::new();
    let (a, _) = broker.handle_connect(Connect { visitor_count: 0 });
    broker.handle_join(Join { id: a, name: "Brand New".to_string() });
    let rooms = broker.handle_list_rooms(ListRooms);
    assert_eq!(rooms, vec!["Main".to_string(), "Brand New".to_string()]);
}

#[test]
fn disconnect_removes_and_is_idempotent() {
    let mut broker = ChatServer::new();
    let (a, _) = broker.handle_connect(Connect { visitor_count: 0 });
    let (b, _) = broker.handle_connect(Connect { visitor_count: 1 });
    let out = broker.handle_disconnect(Disconnect { id: a });
    // exactly one departure notice, to the one remaining member
    assert_eq!(pairs(&out), vec![(b, "Someone Disconnected!!".to_string())]);
    // a is gone: a second disconnect does nothing
    let out2 = broker.handle_disconnect(Disconnect { id: a });
    assert!(out2.is_empty());
    // and a message from a no longer counts it as a member anywhere
    let out3 = broker.handle_client_message(ClientMessage {
        id: b,
        msg: "alone?".to_string(),
        room: "Main".to_string(),
    });
    assert!(out3.is_empty());
}

#[test]
fn disconnect_of_unknown_id_is_noop() {
    let mut broker = ChatServer::new();
    let (_a, _) = broker.handle_connect(Connect { visitor_count: 0 });
    let out = broker.handle_disconnect(Disconnect { id: 123456789 });
    assert!(out.is_empty());
    assert_eq!(broker.handle_list_rooms(ListRooms), vec!["Main".to_string()]);
}

#[test]
fn empty_room_is_kept_after_departure() {
    let mut broker = ChatServer::new();
    let (a, _) = broker.handle_connect(Connect { visitor_count: 0 });
    broker.handle_join(Join { id: a, name: "Sports".to_string() });
    broker.handle_disconnect(Disconnect { id: a });
    let rooms = broker.handle_list_rooms(ListRooms);
    assert_eq!(rooms, vec!["Main".to_string(), "Sports".to_string()]);
}

#[test]
fn display_name_prefixes_chat() {
    let mut session = Session::new(0);
    let acts = session.handle_frame(Frame::Text("/name Alice".to_string()), 0);
    assert!(acts.is_empty());
    let acts = session.handle_frame(Frame::Text("hi".to_string()), 0);
    assert_eq!(acts.len(), 1);
    match &acts[0] {
        Action::Relay(c) => {
            assert_eq!(c.msg, "Alice: hi");
            assert_eq!(c.room, "Main");
        },
        _ => panic!("expected a relay action"),
    }
}

#[test]
fn chat_without_name_is_unprefixed_and_trimmed() {
    let mut session = Session::new(0);
    let acts = session.handle_frame(Frame::Text("  hi there  ".to_string()), 0);
    assert_eq!(acts.len(), 1);
    match &acts[0] {
        Action::Relay(c) => assert_eq!(c.msg, "hi there"),
        _ => panic!("expected a relay action"),
    }
}

#[test]
fn join_command_switches_room_and_confirms() {
    let mut session = Session::new(0);
    session.id = 7;
    let acts = session.handle_frame(Frame::Text("/join Sports".to_string()), 0);
    assert_eq!(session.room, "Sports");
    assert_eq!(acts.len(), 2);
    match &acts[0] {
        Action::Join(j) => {
            assert_eq!(j.id, 7);
            assert_eq!(j.name, "Sports");
        },
        _ => panic!("expected a join action"),
    }
    match &acts[1] {
        Action::Text(t) => assert_eq!(t, "joined!!"),
        _ => panic!("expected a text action"),
    }
}

#[test]
fn join_without_argument_keeps_room() {
    let mut session = Session::new(0);
    let acts = session.handle_frame(Frame::Text("/join".to_string()), 0);
    assert_eq!(acts.len(), 1);
    match &acts[0] {
        Action::Text(t) => assert_eq!(t, "!!! room name is required!!"),
        _ => panic!("expected a text action"),
    }
    assert_eq!(session.room, "Main");
}

#[test]
fn name_without_argument_is_an_error() {
    let mut session = Session::new(0);
    let acts = session.handle_frame(Frame::Text("/name".to_string()), 0);
    assert_eq!(acts.len(), 1);
    match &acts[0] {
        Action::Text(t) => assert_eq!(t, "!!! name is required!!"),
        _ => panic!("expected a text action"),
    }
    assert!(session.name.is_none());
}

#[test]
fn unknown_command_is_echoed() {
    let mut session = Session::new(0);
    let acts = session.handle_frame(Frame::Text("/frobnicate now".to_string()), 0);
    assert_eq!(acts.len(), 1);
    match &acts[0] {
        Action::Text(t) => assert_eq!(t, "!!! unknown command: /frobnicate now"),
        _ => panic!("expected a text action"),
    }
}

#[test]
fn list_command_defers_to_broker() {
    let mut session = Session::new(0);
    let acts = session.handle_frame(Frame::Text("/list".to_string()), 0);
    assert_eq!(acts.len(), 1);
    assert!(matches!(acts[0], Action::ListRooms));
}

#[test]
fn ping_refreshes_heartbeat_and_pongs() {
    let mut session = Session::new(0);
    let acts = session.handle_frame(Frame::Ping(vec![1, 2]), 42);
    assert_eq!(session.hb, 42);
    assert_eq!(acts.len(), 1);
    match &acts[0] {
        Action::Pong(p) => assert_eq!(p, &vec![1, 2]),
        _ => panic!("expected a pong action"),
    }
    let acts = session.handle_frame(Frame::Pong(Vec::new()), 50);
    assert_eq!(session.hb, 50);
    assert!(acts.is_empty());
}

#[test]
fn close_and_continuation_end_the_session() {
    let mut session = Session::new(0);
    let acts = session.handle_frame(Frame::Close, 0);
    assert_eq!(acts.len(), 1);
    assert!(matches!(acts[0], Action::Close));
    let acts = session.handle_frame(Frame::Continuation, 0);
    assert_eq!(acts.len(), 1);
    assert!(matches!(acts[0], Action::Stop));
    let acts = session.handle_frame(Frame::Binary(vec![0xff]), 0);
    assert!(acts.is_empty());
}

#[test]
fn heartbeat_timeout_disconnects_with_one_notice() {
    let mut session = Session::new(0);
    session.handle_frame(Frame::Ping(Vec::new()), 3);
    assert!(!session.heartbeat_expired(3 + CLIENT_TIMEOUT));
    assert!(session.heartbeat_expired(3 + CLIENT_TIMEOUT + 1));
    assert!(HEARTBEAT_INTERVAL < CLIENT_TIMEOUT);
    // the broker side of the timeout: the silent client is disconnected and
    // the remaining room member hears exactly one departure notice
    let mut broker = ChatServer::new();
    let (silent, _) = broker.handle_connect(Connect { visitor_count: 0 });
    let (peer, _) = broker.handle_connect(Connect { visitor_count: 1 });
    let out = broker.handle_disconnect(Disconnect { id: silent });
    assert_eq!(pairs(&out), vec![(peer, "Someone Disconnected!!".to_string())]);
}

#[test]
fn connect_response_sets_id_or_gives_up() {
    let mut session = Session::new(0);
    assert!(session.connect_response(Some(99)));
    assert_eq!(session.id, 99);
    let mut failed = Session::new(0);
    assert!(!failed.connect_response(None));
    assert_eq!(failed.id, 0);
}

#[test]
fn empty_text_is_relayed_empty() {
    let mut session = Session::new(0);
    let acts = session.handle_frame(Frame::Text(String::new()), 0);
    assert_eq!(acts.len(), 1);
    match &acts[0] {
        Action::Relay(c) => assert_eq!(c.msg, ""),
        _ => panic!("expected a relay action"),
    }
}

#[test]
fn rejoining_same_room_announces_departure_and_arrival() {
    let mut broker = ChatServer::new();
    let (a, _) = broker.handle_connect(Connect { visitor_count: 0 });
    let (b, _) = broker.handle_connect(Connect { visitor_count: 1 });
    let out = broker.handle_join(Join { id: a, name: "Main".to_string() });
    assert_eq!(
        pairs(&out),
        vec![
            (b, "Someone Disconnected!!".to_string()),
            (b, "Someone Connected!!".to_string()),
            (a, "Someone Connected!!".to_string()),
        ]
    );
}

#[test]
fn join_of_unknown_id_is_noop() {
    let mut broker = ChatServer::new();
    let out = broker.handle_join(Join { id: 42, name: "Ghost".to_string() });
    assert!(out.is_empty());
    assert_eq!(broker.handle_list_rooms(ListRooms), vec!["Main".to_string()]);
}

#[test]
fn large_visitor_count_renders_in_decimal() {
    let mut broker = ChatServer::new();
    let (id, out) = broker.handle_connect(Connect { visitor_count: 1234567890 });
    assert_eq!(pairs(&out), vec![(id, "Total visitors 1234567890".to_string())]);
}
