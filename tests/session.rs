use avalon_rs::session::{Action, WsChatSession, CLIENT_TIMEOUT_MS};

fn reply(a: Action) -> String {
    match a {
        Action::Reply(t) => t,
        _ => panic!("expected a reply"),
    }
}

fn named(id: usize) -> WsChatSession {
    let mut s = WsChatSession::new(0);
    s.id = id;
    assert!(matches!(s.handle_text("/name bob"), Action::Nothing));
    s
}

#[test]
fn list_asks_the_coordinator() {
    let mut s = WsChatSession::new(0);
    assert!(matches!(s.handle_text("/list"), Action::ListRooms));
    assert!(matches!(s.handle_text("  /list  "), Action::ListRooms));
}

#[test]
fn name_is_set_locally() {
    let mut s = WsChatSession::new(0);
    assert!(matches!(s.handle_text("/name ann"), Action::Nothing));
    assert_eq!(s.name, Some("ann".to_owned()));
    assert_eq!(reply(s.handle_text("/name ann lee")), "!!! unknown command");
    assert_eq!(s.name, Some("ann".to_owned()));
    assert_eq!(reply(s.handle_text("/name")), "!!! name is required");
}

#[test]
fn join_needs_a_name_and_a_room() {
    let mut s = WsChatSession::new(0);
    assert_eq!(reply(s.handle_text("/join 12")), "!!! session name is required");
    let mut s = named(7);
    assert_eq!(reply(s.handle_text("/join")), "!!! room name is required");
    assert_eq!(reply(s.handle_text("/join a b")), "!!! unknown command");
    match s.handle_text("/join 12") {
        Action::Join(j) => {
            assert_eq!(j.id, 7);
            assert_eq!(j.session_name, "bob");
            assert_eq!(j.name, "12");
        }
        _ => panic!("expected a join"),
    }
}

#[test]
fn create_checks_its_size() {
    let mut s = WsChatSession::new(0);
    assert_eq!(reply(s.handle_text("/create 5")), "!!! session name is required");
    let mut s = named(3);
    assert_eq!(reply(s.handle_text("/create")), "!!! size is required");
    assert_eq!(reply(s.handle_text("/create 5 6")), "!!! unknown command");
    assert_eq!(reply(s.handle_text("/create abc")), "!!! invalid room size: abc");
    assert_eq!(reply(s.handle_text("/create 1x")), "!!! invalid room size: 1x");
    assert_eq!(reply(s.handle_text("/create -")), "!!! invalid room size: -");
    assert_eq!(reply(s.handle_text("/create +")), "!!! invalid room size: +");
    assert_eq!(
        reply(s.handle_text("/create 300")),
        "!!! room size 300 is not supported. it should be in range 5-10"
    );
    assert_eq!(
        reply(s.handle_text("/create -3")),
        "!!! room size -3 is not supported. it should be in range 5-10"
    );
    assert_eq!(
        reply(s.handle_text("/create 0099")),
        "!!! room size 99 is not supported. it should be in range 5-10"
    );
    assert_eq!(
        reply(s.handle_text("/create -0")),
        "!!! room size 0 is not supported. it should be in range 5-10"
    );
    assert_eq!(
        reply(s.handle_text("/create 123456789012345678901234567890")),
        "!!! room size 123456789012345678901234567890 is not supported. it should be in range 5-10"
    );
    assert_eq!(
        reply(s.handle_text("/create 3")),
        "!!! room size 3 is not supported. it should be in range 5-10"
    );
    assert_eq!(
        reply(s.handle_text("/create 11")),
        "!!! room size 11 is not supported. it should be in range 5-10"
    );
    match s.handle_text("/create +07") {
        Action::Create(c) => assert_eq!(c.size, 7),
        _ => panic!("expected a create"),
    }
    match s.handle_text("/create 10") {
        Action::Create(c) => {
            assert_eq!(c.id, 3);
            assert_eq!(c.size, 10);
            assert_eq!(c.session_name, "bob");
        }
        _ => panic!("expected a create"),
    }
}

#[test]
fn unknown_commands() {
    let mut s = WsChatSession::new(0);
    assert_eq!(reply(s.handle_text("hello")), "!!! unknown command: \"hello\"");
    assert_eq!(reply(s.handle_text(" /foo bar ")), "!!! unknown command: \"/foo bar\"");
    assert_eq!(reply(s.handle_text("")), "!!! unknown command: \"\"");
}

#[test]
fn heartbeat_times_out() {
    let mut s = WsChatSession::new(1000);
    assert!(!s.heartbeat_expired(1000 + CLIENT_TIMEOUT_MS));
    assert!(s.heartbeat_expired(1001 + CLIENT_TIMEOUT_MS));
    assert!(!s.heartbeat_expired(10));
    s.touch(5000);
    assert_eq!(s.hb, 5000);
    assert!(!s.heartbeat_expired(6000 + CLIENT_TIMEOUT_MS - 1000));
}
